use vstd::prelude::*;
use crate::config::JabConfig;
use crate::color::Rgb;
use crate::encoder::pattern::{
    self, FP_SIZE, AP_SIZE, ap_count, ap_positions_spec, ap_cells, fp_cells, write_cells,
    cpp_written, data_len_written, reserved_spec, lemma_write_cells_len, low_bit_fn, clamp_bpm,
    in_metadata, in_square, lemma_data_len_roundtrip, lemma_cpp_roundtrip,
    lemma_write_cells_untouched, lemma_write_cells_last,
};
use vstd::arithmetic::power2::pow2;
use crate::bits::{value_of_bits, lemma_value_of_bits_congruent};
use crate::config::ColorCount;

verus! {

/// Minimum symbol side in modules.
pub const MIN_SIDE: usize = 21;

/// Smallest side of a built symbol: the first side of the sequence 21, 25,
/// 29, ... whose 16-module length field (row 1, columns 8 to 23) lies clear
/// of the top-right finder pattern, which starts at column `side - 7`.
pub const META_SIDE: usize = 33;

// ---------------------------------------------------------------------------
// Symbol size
// ---------------------------------------------------------------------------

/// Modules set aside in a `side × side` symbol when sizing it: four finder
/// patterns, the alignment patterns and a two-row metadata strip.
pub open spec fn reserved_estimate(side: int) -> int {
    let ap = ap_count(side) * ap_count(side);
    let meta = if side >= 14 { side - 14 } else { 0 };
    4 * 49 + ap * 9 + 2 * meta
}

/// Modules left for data in a `side × side` symbol, by the sizing estimate.
pub open spec fn usable_spec(side: int) -> int {
    if side * side >= reserved_estimate(side) { side * side - reserved_estimate(side) } else { 0 }
}

/// A `side × side` symbol holds `bits` bits at `bpm` bits per module.
pub open spec fn side_fits(side: int, bits: int, bpm: int) -> bool {
    usable_spec(side) * bpm >= bits
}

/// The first side in `side, side + 4, ...` (at most `fuel` steps on) that fits.
pub open spec fn first_fit(bits: int, bpm: int, side: int, fuel: nat) -> int
    decreases fuel,
{
    if side_fits(side, bits, bpm) || fuel == 0 {
        side
    } else {
        first_fit(bits, bpm, side + 4, (fuel - 1) as nat)
    }
}

/// The smallest side in 21, 25, 29, ... whose symbol holds `bits` bits at
/// `bpm` bits per module.
pub open spec fn required_side_spec(bits: int, bpm: int) -> int {
    first_fit(bits, bpm, 21, (bits + 10) as nat)
}

/// The sizes involved in a symbol of side `s` fit in a machine word.
pub open spec fn side_arith_ok(s: int, bpm: int) -> bool {
    &&& (s + 20) * (s + 20) * 16 <= usize::MAX
    &&& s * s * bpm <= usize::MAX
}

proof fn lemma_usable_large(s: int)
    requires
        s >= 40,
    ensures
        usable_spec(s) >= s,
{
    let c = ap_count(s);
    assert(0 <= c <= s / 10);
    assert(c * c <= (s / 10) * (s / 10)) by (nonlinear_arith)
        requires 0 <= c <= s / 10;
    assert((s / 10) * (s / 10) * 100 <= s * s) by (nonlinear_arith)
        requires s >= 0;
    assert(s * s >= 40 * s) by (nonlinear_arith)
        requires s >= 40;
}

proof fn lemma_first_fit(bits: int, bpm: int, side: int, fuel: nat)
    requires
        bpm >= 1,
        bits >= 0,
        side >= 21,
        (side - 21) % 4 == 0,
        side + 4 * fuel >= 4 * bits + 61,
    ensures
        side_fits(first_fit(bits, bpm, side, fuel), bits, bpm),
        first_fit(bits, bpm, side, fuel) >= side,
        (first_fit(bits, bpm, side, fuel) - 21) % 4 == 0,
        forall|s: int| side <= s < first_fit(bits, bpm, side, fuel) && (s - 21) % 4 == 0 ==> !side_fits(s, bits, bpm),
    decreases fuel,
{
    if side_fits(side, bits, bpm) {
    } else if fuel == 0 {
        lemma_usable_large(side);
        assert(usable_spec(side) * bpm >= usable_spec(side)) by (nonlinear_arith)
            requires bpm >= 1, usable_spec(side) >= 0;
    } else {
        lemma_first_fit(bits, bpm, side + 4, (fuel - 1) as nat);
    }
}

/// The required side is the smallest side of the sequence 21, 25, 29, ...
/// whose symbol holds the bits.
pub proof fn lemma_required_side(bits: int, bpm: int)
    requires
        bpm >= 1,
        bits >= 0,
    ensures
        required_side_spec(bits, bpm) >= 21,
        (required_side_spec(bits, bpm) - 21) % 4 == 0,
        side_fits(required_side_spec(bits, bpm), bits, bpm),
        forall|s: int| 21 <= s < required_side_spec(bits, bpm) && (s - 21) % 4 == 0 ==> !side_fits(s, bits, bpm),
{
    lemma_first_fit(bits, bpm, 21, (bits + 10) as nat);
}

/// Compute the smallest square symbol side that fits `encoded_bits` bits at
/// `bpm` bits per module (after reserving overhead).
pub fn required_side(encoded_bits: usize, bpm: u8) -> (r: usize)
    requires
        bpm >= 1,
        side_arith_ok(required_side_spec(encoded_bits as int, bpm as int), bpm as int),
    ensures
        r == required_side_spec(encoded_bits as int, bpm as int),
        r >= MIN_SIDE,
        side_fits(r as int, encoded_bits as int, bpm as int),
{
    let ghost bits = encoded_bits as int;
    let ghost target = required_side_spec(bits, bpm as int);
    let ghost fuel: nat = (bits + 10) as nat;
    proof {
        lemma_required_side(bits, bpm as int);
    }
    let mut side: usize = MIN_SIDE;
    let ghost mut t: nat = 0;
    loop
        invariant
            bpm >= 1,
            side_arith_ok(target, bpm as int),
            target == required_side_spec(bits, bpm as int),
            fuel == (bits + 10) as nat,
            bits == encoded_bits as int,
            target >= 21,
            side_fits(target, bits, bpm as int),
            (target - 21) % 4 == 0,
            forall|s: int| 21 <= s < target && (s - 21) % 4 == 0 ==> !side_fits(s, bits, bpm as int),
            t <= fuel,
            side == 21 + 4 * t,
            first_fit(bits, bpm as int, side as int, (fuel - t) as nat) == target,
            side <= target,
        decreases fuel - t,
    {
        proof {
            assert((side + 20) * (side + 20) * 16 <= (target + 20) * (target + 20) * 16) by (nonlinear_arith)
                requires 0 <= side <= target;
            assert(side * side * bpm <= target * target * bpm) by (nonlinear_arith)
                requires 0 <= side <= target, bpm >= 0;
            assert(side * side <= side * side * bpm) by (nonlinear_arith)
                requires bpm >= 1;
            assert(side + 20 <= (side + 20) * (side + 20)) by (nonlinear_arith)
                requires side >= 0;
        }
        let cnt = pattern::alignment_positions(side).len();
        proof {
            assert(cnt == ap_count(side as int) * ap_count(side as int));
            assert(0 <= ap_count(side as int) <= side);
            assert(cnt <= side * side) by (nonlinear_arith)
                requires cnt == ap_count(side as int) * ap_count(side as int), 0 <= ap_count(side as int) <= side;
        }
        proof {
            assert(cnt * 9 <= side * side * 9) by (nonlinear_arith)
                requires cnt <= side * side;
            assert(side * side * 9 + 196 + 2 * side <= (side + 20) * (side + 20) * 16) by (nonlinear_arith)
                requires side >= 0;
        }
        let metadata_cols = if side >= 2 * FP_SIZE { side - 2 * FP_SIZE } else { 0 };
        let reserved = 4 * FP_SIZE * FP_SIZE + cnt * AP_SIZE * AP_SIZE + 2 * metadata_cols;
        let total_modules = side * side;
        let usable = if total_modules >= reserved { total_modules - reserved } else { 0 };
        proof {
            assert(usable <= side * side);
            assert(usable * bpm <= side * side * bpm) by (nonlinear_arith)
                requires usable <= side * side, bpm >= 0;
            assert(usable == usable_spec(side as int));
        }
        if usable * (bpm as usize) >= encoded_bits {
            return side;
        }
        proof {
            if t == fuel {
                assert(first_fit(bits, bpm as int, side as int, 0) == side);
            }
        }
        side += 4;
        proof {
            t = t + 1;
            assert(side - 4 != target);
            assert(side <= target);
        }
    }
}

// ---------------------------------------------------------------------------
// The module matrix
// ---------------------------------------------------------------------------

/// A single JAB code symbol: flat row-major matrix of module color indices,
/// with its side and bits per module.
#[derive(Clone)]
pub struct JabMatrix {
    /// Row-major color indices.
    pub modules: Vec<u8>,
    /// Modules per side.
    pub side: usize,
    /// Bits per module.
    pub bpm: u8,
}

impl JabMatrix {
    /// An all-zero `side × side` matrix.
    pub fn new(side: usize, bpm: u8) -> (r: Self)
        requires
            side * side <= usize::MAX,
        ensures
            r.modules@ == Seq::new((side * side) as nat, |i: int| 0u8),
            r.side == side,
            r.bpm == bpm,
    {
        let modules = vec![0u8; side * side];
        assert(modules@ =~= Seq::new((side * side) as nat, |i: int| 0u8));
        JabMatrix { modules, side, bpm }
    }

    /// Set module (r, c).
    pub fn set(&mut self, r: usize, c: usize, v: u8)
        requires
            r * old(self).side + c < old(self).modules@.len(),
        ensures
            final(self).modules@ == old(self).modules@.update(r * old(self).side + c, v),
            final(self).side == old(self).side,
            final(self).bpm == old(self).bpm,
    {
        let n = self.modules.len();
        let idx = r * self.side + c;
        self.modules.set(idx, v);
    }

    /// Module (r, c).
    pub fn get(&self, r: usize, c: usize) -> (v: u8)
        requires
            r * self.side + c < self.modules@.len(),
        ensures
            v == self.modules@[r * self.side + c],
    {
        let n = self.modules.len();
        self.modules[r * self.side + c]
    }
}

// ---------------------------------------------------------------------------
// Layout of a symbol
// ---------------------------------------------------------------------------

/// `s` with the four finder patterns of a `side × side` matrix written, at
/// the top-left, top-right, bottom-left and bottom-right corners in that order.
pub open spec fn with_finders(s: Seq<u8>, side: int) -> Seq<u8> {
    let s1 = write_cells(s, fp_cells(side, 0, 0, 0));
    let s2 = write_cells(s1, fp_cells(side, 0, side - 7, 1));
    let s3 = write_cells(s2, fp_cells(side, side - 7, 0, 2));
    write_cells(s3, fp_cells(side, side - 7, side - 7, 3))
}

/// `s` with the first `n` alignment patterns of `aps` written in order.
pub open spec fn with_alignments(s: Seq<u8>, side: int, aps: Seq<(usize, usize)>, n: int) -> Seq<u8>
    decreases n,
{
    if n <= 0 {
        s
    } else {
        write_cells(with_alignments(s, side, aps, n - 1), ap_cells(side, aps[n - 1].0 as int, aps[n - 1].1 as int))
    }
}

/// Cell `k` of a `side × side` matrix is reserved.
pub open spec fn cell_reserved(side: int, aps: Seq<(usize, usize)>, k: int) -> bool {
    reserved_spec(k / side, k % side, side, aps)
}

/// Number of data (unreserved) cells among the first `k` cells, in
/// row-major order.
pub open spec fn data_rank(side: int, aps: Seq<(usize, usize)>, k: int) -> nat
    decreases k,
{
    if k <= 0 {
        0
    } else {
        data_rank(side, aps, k - 1) + if cell_reserved(side, aps, k - 1) { 0nat } else { 1nat }
    }
}

/// `base` with the data modules `mods` written, in row-major order, into
/// the unreserved cells among the first `k`; the data cells past the last
/// module keep their value.
pub open spec fn fill_prefix(base: Seq<u8>, side: int, aps: Seq<(usize, usize)>, mods: Seq<u8>, k: int) -> Seq<u8> {
    Seq::new(base.len(), |x: int|
        if x < k && !cell_reserved(side, aps, x) && data_rank(side, aps, x) < mods.len() {
            mods[data_rank(side, aps, x) as int]
        } else {
            base[x]
        })
}

/// `base` with the data modules written into all its unreserved cells.
pub open spec fn fill_data(base: Seq<u8>, side: int, aps: Seq<(usize, usize)>, mods: Seq<u8>) -> Seq<u8> {
    fill_prefix(base, side, aps, mods, base.len() as int)
}

/// The patterns and metadata of a `side × side` symbol for a palette of
/// `color_count` colors holding `data_len` bytes, before the data is filled.
pub open spec fn symbol_base(side: int, color_count: usize, data_len: usize) -> Seq<u8> {
    let aps = ap_positions_spec(side);
    let zeros = Seq::new((side * side) as nat, |i: int| 0u8);
    data_len_written(
        cpp_written(with_alignments(with_finders(zeros, side), side, aps, aps.len() as int), color_count),
        side,
        data_len,
    )
}

/// The modules of a `side × side` symbol holding data modules `mods`.
pub open spec fn matrix_spec(side: int, color_count: usize, mods: Seq<u8>, data_len: usize) -> Seq<u8> {
    fill_data(symbol_base(side, color_count, data_len), side, ap_positions_spec(side), mods)
}

/// The side of a symbol that holds `bits` bits at `bpm` bits per module and
/// keeps its length field clear of the finder patterns: the required side,
/// but at least `META_SIDE`.
pub open spec fn symbol_side(bits: int, bpm: int) -> int {
    let s = required_side_spec(bits, bpm);
    if s < META_SIDE { META_SIDE as int } else { s }
}

/// The side of the symbol built for `n_modules` modules under `cfg`.
pub open spec fn matrix_side(cfg: JabConfig, n_modules: int) -> int {
    symbol_side(n_modules * cfg.colors.spec_bpm(), cfg.colors.spec_bpm() as int)
}

/// The squared side arithmetic only fails more for larger sides.
pub proof fn lemma_side_arith_monotone(s: int, t: int, bpm: int)
    requires
        0 <= s <= t,
        bpm >= 0,
        !side_arith_ok(s, bpm),
    ensures
        !side_arith_ok(t, bpm),
{
    assert((s + 20) * (s + 20) * 16 <= (t + 20) * (t + 20) * 16) by (nonlinear_arith)
        requires 0 <= s <= t;
    assert(s * s * bpm <= t * t * bpm) by (nonlinear_arith)
        requires 0 <= s <= t, bpm >= 0;
}

/// A built symbol's side is one of 33, 37, 41, ... and holds the bits.
pub proof fn lemma_symbol_side(bits: int, bpm: int)
    requires
        1 <= bpm <= 8,
        bits >= 0,
    ensures
        symbol_side(bits, bpm) >= META_SIDE,
        (symbol_side(bits, bpm) - 21) % 4 == 0,
        side_fits(symbol_side(bits, bpm), bits, bpm),
        symbol_side(bits, bpm) >= required_side_spec(bits, bpm),
        required_side_spec(bits, bpm) >= 21,
        side_arith_ok(required_side_spec(bits, bpm), bpm) ==> side_arith_ok(symbol_side(bits, bpm), bpm),
{
    lemma_required_side(bits, bpm);
    let t = required_side_spec(bits, bpm);
    if t < 33 {
        assert(t == 21 || t == 25 || t == 29);
        assert(usable_spec(21) == 231);
        assert(usable_spec(25) == 398);
        assert(ap_count(29) == 1);
        assert(reserved_estimate(29) == 235);
        assert(29 * 29 == 841int);
        assert(usable_spec(29) == 841 - 235);
        assert(usable_spec(33) == 846);
        assert(usable_spec(33) * bpm >= usable_spec(t) * bpm) by (nonlinear_arith)
            requires usable_spec(33) >= usable_spec(t), bpm >= 0;
        assert(side_arith_ok(33, bpm)) by (nonlinear_arith)
            requires 1 <= bpm <= 8;
    }
}

proof fn lemma_rank_step(side: int, aps: Seq<(usize, usize)>, k: int)
    requires
        k >= 0,
    ensures
        data_rank(side, aps, k + 1) == data_rank(side, aps, k) + if cell_reserved(side, aps, k) { 0nat } else { 1nat },
{
}

/// Data ranks never decrease along the raster order.
pub proof fn lemma_rank_monotone(side: int, aps: Seq<(usize, usize)>, a: int, b: int)
    requires
        0 <= a <= b,
    ensures
        data_rank(side, aps, a) <= data_rank(side, aps, b),
    decreases b - a,
{
    if a < b {
        lemma_rank_monotone(side, aps, a, b - 1);
    }
}

pub proof fn lemma_cell_div(side: int, r: int, c: int)
    requires
        side > 0,
        0 <= r,
        0 <= c < side,
    ensures
        (r * side + c) / side == r,
        (r * side + c) % side == c,
{
    vstd::arithmetic::div_mod::lemma_fundamental_div_mod_converse(r * side + c, side, r, c);
}

pub proof fn lemma_ap_positions_inside(side: int, t: int)
    requires
        side >= 21,
        side + 20 <= usize::MAX,
        0 <= t < ap_positions_spec(side).len(),
    ensures
        ap_positions_spec(side)[t].0 + 12 <= side,
        ap_positions_spec(side)[t].1 + 12 <= side,
        ap_positions_spec(side)[t].0 >= 9,
        ap_positions_spec(side)[t].1 >= 9,
{
    let n = ap_count(side);
    assert(n >= 1);
    assert(0 <= t / n < n && 0 <= t % n < n) by (nonlinear_arith)
        requires 0 <= t < n * n, n >= 1;
    assert(20 * (n - 1) <= side - 21);
}

/// Build a complete JAB symbol matrix from encoded module values
/// (`encoded_modules`, color indices) and the payload length in bytes,
/// stored in the metadata for the decoder.
pub fn build_matrix(cfg: &JabConfig, encoded_modules: &[u8], data_len: usize) -> (m: JabMatrix)
    requires
        encoded_modules@.len() * cfg.colors.spec_bpm() <= usize::MAX,
        side_arith_ok(matrix_side(*cfg, encoded_modules@.len() as int), cfg.colors.spec_bpm() as int),
    ensures
        m.side == matrix_side(*cfg, encoded_modules@.len() as int),
        m.side >= META_SIDE,
        m.bpm == cfg.colors.spec_bpm(),
        m.modules@.len() == m.side * m.side,
        m.modules@ == matrix_spec(m.side as int, cfg.colors.spec_count() as usize, encoded_modules@, data_len),
{
    let bpm = cfg.colors.bits_per_module();
    let bits = encoded_modules.len() * (bpm as usize);
    proof {
        lemma_symbol_side(bits as int, bpm as int);
        let t = required_side_spec(bits as int, bpm as int);
        if !side_arith_ok(t, bpm as int) {
            lemma_side_arith_monotone(t, symbol_side(bits as int, bpm as int), bpm as int);
        }
    }
    let needed = required_side(bits, bpm);
    let side = if needed < META_SIDE { META_SIDE } else { needed };
    proof {
        assert(side == symbol_side(bits as int, bpm as int));
        assert(side * side <= (side + 20) * (side + 20) * 16) by (nonlinear_arith)
            requires side >= 0;
        assert(side * (side - 1) + side - 1 < side * side) by (nonlinear_arith)
            requires side >= 21;
        assert((side - 7) * side + side - 1 < side * side) by (nonlinear_arith)
            requires side >= 21;
        assert(6 * side + 6 < side * side) by (nonlinear_arith)
            requires side >= 21;
        assert(pattern::cell_index(side as int, 0int + 6, (side - 7) + 6) < side * side) by (nonlinear_arith)
            requires side >= 21;
        assert(pattern::cell_index(side as int, (side - 7) + 6, 0int + 6) < side * side) by (nonlinear_arith)
            requires side >= 21;
        assert(pattern::cell_index(side as int, (side - 7) + 6, (side - 7) + 6) < side * side) by (nonlinear_arith)
            requires side >= 21;
        assert(side + 20 <= usize::MAX) by (nonlinear_arith)
            requires (side + 20) * (side + 20) * 16 <= usize::MAX;
    }
    let mut m = JabMatrix::new(side, bpm);
    let ghost zeros = m.modules@;

    pattern::place_fp(m.modules.as_mut_slice(), side, 0, 0, 0);
    pattern::place_fp(m.modules.as_mut_slice(), side, 0, side - FP_SIZE, 1);
    pattern::place_fp(m.modules.as_mut_slice(), side, side - FP_SIZE, 0, 2);
    pattern::place_fp(m.modules.as_mut_slice(), side, side - FP_SIZE, side - FP_SIZE, 3);
    proof {
        assert(m.modules@ == with_finders(zeros, side as int));
        lemma_write_cells_len(zeros, fp_cells(side as int, 0, 0, 0));
        lemma_write_cells_len(write_cells(zeros, fp_cells(side as int, 0, 0, 0)), fp_cells(side as int, 0, side - 7, 1));
        lemma_write_cells_len(
            write_cells(write_cells(zeros, fp_cells(side as int, 0, 0, 0)), fp_cells(side as int, 0, side - 7, 1)),
            fp_cells(side as int, side - 7, 0, 2),
        );
    }

    let ap_pos = pattern::alignment_positions(side);
    let ghost finders = m.modules@;
    let mut t: usize = 0;
    while t < ap_pos.len()
        invariant
            side >= 21,
            side * side <= usize::MAX,
            side + 20 <= usize::MAX,
            ap_pos@ == ap_positions_spec(side as int),
            t <= ap_pos@.len(),
            m.side == side,
            m.bpm == bpm,
            finders.len() == side * side,
            m.modules@ == with_alignments(finders, side as int, ap_pos@, t as int),
            m.modules@.len() == side * side,
        decreases ap_pos.len() - t,
    {
        let (ar, ac) = ap_pos[t];
        proof {
            lemma_ap_positions_inside(side as int, t as int);
            assert((ar + 2) * side + ac + 2 < side * side) by (nonlinear_arith)
                requires ar + 12 <= side, ac + 12 <= side, side >= 21;
            lemma_write_cells_len(m.modules@, ap_cells(side as int, ar as int, ac as int));
        }
        pattern::place_ap(m.modules.as_mut_slice(), side, ar, ac);
        t += 1;
    }

    pattern::place_cpp(m.modules.as_mut_slice(), side, cfg.colors.count());
    pattern::place_data_len(m.modules.as_mut_slice(), side, data_len);
    let ghost base = m.modules@;
    proof {
        assert(base == symbol_base(side as int, cfg.colors.spec_count() as usize, data_len));
        assert(m.modules@ =~= fill_prefix(base, side as int, ap_pos@, encoded_modules@, 0));
    }

    // Fill data modules in raster order (row by row, left to right),
    // skipping reserved areas.
    let mut next: usize = 0;
    let mut done = false;
    let mut r: usize = 0;
    while r < side && !done
        invariant
            side >= 21,
            side * side <= usize::MAX,
            ap_pos@ == ap_positions_spec(side as int),
            base.len() == side * side,
            m.side == side,
            m.bpm == bpm,
            r <= side,
            !done ==> next == data_rank(side as int, ap_pos@, r * side),
            next <= encoded_modules@.len(),
            done ==> next == encoded_modules@.len(),
            done ==> m.modules@ == fill_data(base, side as int, ap_pos@, encoded_modules@),
            !done ==> m.modules@ == fill_prefix(base, side as int, ap_pos@, encoded_modules@, r * side),
        decreases (side - r) * 2 + if done { 0int } else { 1int },
    {
        let mut c: usize = 0;
        while c < side && !done
            invariant
                side >= 21,
                side * side <= usize::MAX,
                ap_pos@ == ap_positions_spec(side as int),
                base.len() == side * side,
                m.side == side,
                m.bpm == bpm,
                r < side,
                c <= side,
                !done ==> next == data_rank(side as int, ap_pos@, r * side + c),
                next <= encoded_modules@.len(),
                done ==> next == encoded_modules@.len(),
                done ==> m.modules@ == fill_data(base, side as int, ap_pos@, encoded_modules@),
                !done ==> m.modules@ == fill_prefix(base, side as int, ap_pos@, encoded_modules@, r * side + c),
            decreases (side - c) * 2 + if done { 0int } else { 1int },
        {
            let ghost k = r * side + c;
            proof {
                assert(r * side + c < side * side) by (nonlinear_arith)
                    requires r < side, c < side;
                lemma_cell_div(side as int, r as int, c as int);
                lemma_rank_step(side as int, ap_pos@, k);
            }
            let res = pattern::is_reserved(r, c, side, ap_pos.as_slice());
            if !res {
                if next < encoded_modules.len() {
                    let v = encoded_modules[next];
                    m.set(r, c, v);
                    next += 1;
                    proof {
                        assert(m.modules@ =~= fill_prefix(base, side as int, ap_pos@, encoded_modules@, k + 1));
                    }
                } else {
                    done = true;
                    proof {
                        assert forall|x: int| k <= x < base.len() implies data_rank(side as int, ap_pos@, x) >= encoded_modules@.len() by {
                            lemma_rank_monotone(side as int, ap_pos@, k, x);
                        }
                        assert(m.modules@ =~= fill_data(base, side as int, ap_pos@, encoded_modules@));
                    }
                }
            } else {
                proof {
                    assert(m.modules@ =~= fill_prefix(base, side as int, ap_pos@, encoded_modules@, k + 1));
                }
            }
            if !done {
                c += 1;
            }
        }
        if !done {
            proof {
                assert(r * side + side == (r + 1) * side) by (nonlinear_arith);
            }
            r += 1;
        }
    }
    proof {
        if !done {
            assert(r * side == side * side);
            assert(m.modules@ =~= fill_data(base, side as int, ap_pos@, encoded_modules@));
        }
    }
    m
}


/// The values `f(x)` of the unreserved cells `x` among the first `k` cells
/// of a `side × side` matrix, in row-major order.
pub open spec fn data_cells(f: spec_fn(int) -> u8, side: int, aps: Seq<(usize, usize)>, k: int) -> Seq<u8>
    decreases k,
{
    if k <= 0 {
        Seq::empty()
    } else {
        data_cells(f, side, aps, k - 1) + if cell_reserved(side, aps, k - 1) { Seq::empty() } else { seq![f(k - 1)] }
    }
}

/// The cell values of a flat matrix.
pub open spec fn cell_fn(m: Seq<u8>) -> spec_fn(int) -> u8 {
    |x: int| m[x]
}

/// Reading the data cells of a filled matrix back in raster order gives the
/// data modules written, as far as there are data cells.
pub proof fn lemma_data_cells_fill(base: Seq<u8>, side: int, aps: Seq<(usize, usize)>, mods: Seq<u8>, k: int)
    requires
        0 <= k <= base.len(),
    ensures
        data_cells(cell_fn(fill_data(base, side, aps, mods)), side, aps, k).len() == data_rank(side, aps, k),
        forall|i: int| 0 <= i < data_rank(side, aps, k) && i < mods.len() ==>
            #[trigger] data_cells(cell_fn(fill_data(base, side, aps, mods)), side, aps, k)[i] == mods[i],
    decreases k,
{
    if k > 0 {
        lemma_data_cells_fill(base, side, aps, mods, k - 1);
        let f = cell_fn(fill_data(base, side, aps, mods));
        let prev = data_cells(f, side, aps, k - 1);
        let cur = data_cells(f, side, aps, k);
        if !cell_reserved(side, aps, k - 1) {
            assert(cur == prev + seq![f(k - 1)]);
            assert forall|i: int| 0 <= i < data_rank(side, aps, k) && i < mods.len() implies #[trigger] cur[i] == mods[i] by {
                if i < prev.len() {
                    assert(cur[i] == prev[i]);
                }
            }
        }
    }
}

/// Two cell functions that agree on the first `n` data cells give data cell
/// sequences that agree there.
pub proof fn lemma_data_cells_agree(f: spec_fn(int) -> u8, g: spec_fn(int) -> u8, side: int, aps: Seq<(usize, usize)>, k: int, n: int)
    requires
        0 <= k,
        forall|x: int| 0 <= x < k && !cell_reserved(side, aps, x) && data_rank(side, aps, x) < n ==> #[trigger] f(x) == g(x),
    ensures
        data_cells(f, side, aps, k).len() == data_rank(side, aps, k),
        data_cells(g, side, aps, k).len() == data_rank(side, aps, k),
        forall|i: int| 0 <= i < data_rank(side, aps, k) && i < n ==>
            #[trigger] data_cells(f, side, aps, k)[i] == data_cells(g, side, aps, k)[i],
    decreases k,
{
    if k > 0 {
        lemma_data_cells_agree(f, g, side, aps, k - 1, n);
        let pf = data_cells(f, side, aps, k - 1);
        let pg = data_cells(g, side, aps, k - 1);
        if !cell_reserved(side, aps, k - 1) {
            assert forall|i: int| 0 <= i < data_rank(side, aps, k) && i < n implies
                #[trigger] data_cells(f, side, aps, k)[i] == data_cells(g, side, aps, k)[i] by {
                if i < pf.len() {
                    assert(data_cells(f, side, aps, k)[i] == pf[i]);
                    assert(data_cells(g, side, aps, k)[i] == pg[i]);
                } else {
                    assert(f(k - 1) == g(k - 1));
                }
            }
        }
    }
}

/// When a matrix has at least as many data cells as modules, its data
/// cells, read in raster order, begin with the modules.
pub proof fn lemma_data_cells_prefix(base: Seq<u8>, side: int, aps: Seq<(usize, usize)>, mods: Seq<u8>)
    requires
        data_rank(side, aps, base.len() as int) >= mods.len(),
    ensures
        data_cells(cell_fn(fill_data(base, side, aps, mods)), side, aps, base.len() as int).take(mods.len() as int) == mods,
{
    lemma_data_cells_fill(base, side, aps, mods, base.len() as int);
    assert(data_cells(cell_fn(fill_data(base, side, aps, mods)), side, aps, base.len() as int).take(mods.len() as int) =~= mods);
}

proof fn lemma_with_alignments_len(s: Seq<u8>, side: int, aps: Seq<(usize, usize)>, n: int)
    ensures
        with_alignments(s, side, aps, n).len() == s.len(),
    decreases n,
{
    if n > 0 {
        lemma_with_alignments_len(s, side, aps, n - 1);
        lemma_write_cells_len(with_alignments(s, side, aps, n - 1), ap_cells(side, aps[n - 1].0 as int, aps[n - 1].1 as int));
    }
}

/// A symbol has `side × side` cells.
pub proof fn lemma_symbol_base_len(side: int, color_count: usize, data_len: usize)
    requires
        side >= 0,
    ensures
        symbol_base(side, color_count, data_len).len() == side * side,
{
    let zeros = Seq::new((side * side) as nat, |i: int| 0u8);
    let s1 = write_cells(zeros, fp_cells(side, 0, 0, 0));
    let s2 = write_cells(s1, fp_cells(side, 0, side - 7, 1));
    let s3 = write_cells(s2, fp_cells(side, side - 7, 0, 2));
    lemma_write_cells_len(zeros, fp_cells(side, 0, 0, 0));
    lemma_write_cells_len(s1, fp_cells(side, 0, side - 7, 1));
    lemma_write_cells_len(s2, fp_cells(side, side - 7, 0, 2));
    lemma_write_cells_len(s3, fp_cells(side, side - 7, side - 7, 3));
    let aps = ap_positions_spec(side);
    lemma_with_alignments_len(with_finders(zeros, side), side, aps, aps.len() as int);
}

/// The length field and the palette pattern lie in reserved cells.
proof fn lemma_metadata_reserved(side: int, aps: Seq<(usize, usize)>, x: int)
    requires
        side >= 24,
        8 <= x < 12 || side + 8 <= x < side + 24,
    ensures
        cell_reserved(side, aps, x),
{
    if x < 12 {
        lemma_cell_div(side, 0, x);
        assert(in_metadata(0, x));
    } else {
        lemma_cell_div(side, 1, x - side);
        assert(in_metadata(1, x - side));
    }
}

/// The length field cells of a built symbol hold the bits of the length.
pub proof fn lemma_length_field_cells(side: int, cc: ColorCount, mods: Seq<u8>, data_len: usize, i: int)
    requires
        side >= 24,
        0 <= i < 16,
    ensures
        matrix_spec(side, cc.spec_count() as usize, mods, data_len)[side + 8 + i]
            == if pattern::u16_bit(data_len as u16, i) { 1u8 } else { 0u8 },
{
    let aps = ap_positions_spec(side);
    let cnt = cc.spec_count() as usize;
    lemma_symbol_base_len(side, cnt, data_len);
    assert(side * side >= side + 24) by (nonlinear_arith)
        requires side >= 24;
    lemma_metadata_reserved(side, aps, side + 8 + i);
}

/// Top module row of finder pattern `f` in a `side × side` symbol.
pub open spec fn corner_row(side: int, f: int) -> int {
    if f >= 2 { side - 7 } else { 0 }
}

/// Left module column of finder pattern `f` in a `side × side` symbol.
pub open spec fn corner_col(side: int, f: int) -> int {
    if f == 1 || f == 3 { side - 7 } else { 0 }
}

/// Cells (a, b) and (c, d) of a raster `side` wide are the same cell only
/// when their rows and columns agree.
proof fn lemma_cell_eq(side: int, a: int, b: int, c: int, d: int)
    requires
        side > 0,
        0 <= a,
        0 <= c,
        0 <= b < side,
        0 <= d < side,
        a * side + b == c * side + d,
    ensures
        a == c,
        b == d,
{
    lemma_cell_div(side, a, b);
    lemma_cell_div(side, c, d);
}

/// Placing alignment patterns leaves every finder pattern cell as it was.
proof fn lemma_alignments_keep(s: Seq<u8>, side: int, n: int, r: int, c: int)
    requires
        side >= 33,
        side + 20 <= usize::MAX,
        0 <= n <= ap_positions_spec(side).len(),
        s.len() == side * side,
        0 <= r < side,
        0 <= c < side,
        r < 7 || r >= side - 7,
    ensures
        with_alignments(s, side, ap_positions_spec(side), n)[r * side + c] == s[r * side + c],
    decreases n,
{
    let aps = ap_positions_spec(side);
    assert(0 <= r * side + c < side * side) by (nonlinear_arith)
        requires 0 <= r < side, 0 <= c < side;
    if n > 0 {
        lemma_alignments_keep(s, side, n - 1, r, c);
        lemma_with_alignments_len(s, side, aps, n - 1);
        lemma_ap_positions_inside(side, n - 1);
        let cells = ap_cells(side, aps[n - 1].0 as int, aps[n - 1].1 as int);
        assert forall|t: int| 0 <= t < cells.len() implies cells[t].0 != r * side + c by {
            let ar = aps[n - 1].0 as int + t / 3;
            let ac = aps[n - 1].1 as int + t % 3;
            if ar * side + ac == r * side + c {
                lemma_cell_eq(side, ar, ac, r, c);
            }
        }
        lemma_write_cells_untouched(with_alignments(s, side, aps, n - 1), cells, r * side + c);
    }
}

/// The cells of the finder patterns of a built symbol hold their colors.
pub proof fn lemma_finder_cells(side: int, cc: ColorCount, mods: Seq<u8>, data_len: usize, f: int, mr: int, mc: int)
    requires
        side >= 33,
        side + 20 <= usize::MAX,
        0 <= f < 4,
        0 <= mr < 7,
        0 <= mc < 7,
    ensures
        matrix_spec(side, cc.spec_count() as usize, mods, data_len)[(corner_row(side, f) + mr) * side + corner_col(side, f) + mc]
            == pattern::fp_color_spec(f, mr, mc),
{
    let aps = ap_positions_spec(side);
    let cnt = cc.spec_count() as usize;
    let r = corner_row(side, f) + mr;
    let c = corner_col(side, f) + mc;
    let x = r * side + c;
    let zeros = Seq::new((side * side) as nat, |i: int| 0u8);
    let f0 = fp_cells(side, 0, 0, 0);
    let f1 = fp_cells(side, 0, side - 7, 1);
    let f2 = fp_cells(side, side - 7, 0, 2);
    let f3 = fp_cells(side, side - 7, side - 7, 3);
    let s1 = write_cells(zeros, f0);
    let s2 = write_cells(s1, f1);
    let s3 = write_cells(s2, f2);
    let s4 = write_cells(s3, f3);
    lemma_write_cells_len(zeros, f0);
    lemma_write_cells_len(s1, f1);
    lemma_write_cells_len(s2, f2);
    lemma_write_cells_len(s3, f3);
    assert(0 <= x < side * side) by (nonlinear_arith)
        requires 0 <= r < side, 0 <= c < side, x == r * side + c;
    lemma_cell_div(side, r, c);
    // Which stage writes cell x, and that no other stage touches it.
    let t = mr * 7 + mc;
    assert(t / 7 == mr && t % 7 == mc);
    let fs = seq![f0, f1, f2, f3];
    assert forall|g: int, u: int| 0 <= g < 4 && 0 <= u < 49 && (g != f || u != t) implies
        (#[trigger] fs[g][u]).0 != x by {
        let gr = corner_row(side, g) + u / 7;
        let gc = corner_col(side, g) + u % 7;
        assert(fs[g][u].0 == gr * side + gc);
        if gr * side + gc == x {
            lemma_cell_eq(side, gr, gc, r, c);
            vstd::arithmetic::div_mod::lemma_fundamental_div_mod(u, 7);
        }
    }
    if f == 0 {
        lemma_write_cells_last(zeros, f0, t);
        assert forall|u: int| 0 <= u < 49 implies f1[u].0 != x by { assert(fs[1][u].0 != x); }
        assert forall|u: int| 0 <= u < 49 implies f2[u].0 != x by { assert(fs[2][u].0 != x); }
        assert forall|u: int| 0 <= u < 49 implies f3[u].0 != x by { assert(fs[3][u].0 != x); }
        assert forall|u: int| t < u < 49 implies f0[u].0 != f0[t].0 by { assert(fs[0][u].0 != x); }
        lemma_write_cells_untouched(s1, f1, x);
        lemma_write_cells_untouched(s2, f2, x);
        lemma_write_cells_untouched(s3, f3, x);
    } else if f == 1 {
        lemma_write_cells_last(s1, f1, t);
        assert forall|u: int| 0 <= u < 49 implies f2[u].0 != x by { assert(fs[2][u].0 != x); }
        assert forall|u: int| 0 <= u < 49 implies f3[u].0 != x by { assert(fs[3][u].0 != x); }
        assert forall|u: int| t < u < 49 implies f1[u].0 != f1[t].0 by { assert(fs[1][u].0 != x); }
        lemma_write_cells_untouched(s2, f2, x);
        lemma_write_cells_untouched(s3, f3, x);
    } else if f == 2 {
        lemma_write_cells_last(s2, f2, t);
        assert forall|u: int| 0 <= u < 49 implies f3[u].0 != x by { assert(fs[3][u].0 != x); }
        assert forall|u: int| t < u < 49 implies f2[u].0 != f2[t].0 by { assert(fs[2][u].0 != x); }
        lemma_write_cells_untouched(s3, f3, x);
    } else {
        lemma_write_cells_last(s3, f3, t);
        assert forall|u: int| t < u < 49 implies f3[u].0 != f3[t].0 by { assert(fs[3][u].0 != x); }
    }
    assert(s4[x] == pattern::fp_color_spec(f, mr, mc));
    assert(s4 == with_finders(zeros, side));
    lemma_alignments_keep(s4, side, aps.len() as int, r, c);
    let core = with_alignments(s4, side, aps, aps.len() as int);
    lemma_with_alignments_len(s4, side, aps, aps.len() as int);
    // The palette pattern and the length field lie elsewhere.
    if r == 0 {
        assert(!(8 <= x < 12));
    }
    if r == 1 {
        assert(!(side + 8 <= x < side + 24));
    }
    assert(!(side + 8 <= x < side + 24)) by {
        if side + 8 <= x < side + 24 {
            lemma_cell_div(side, 1, x - side);
        }
    }
    assert(!(8 <= x < 12)) by {
        if 8 <= x < 12 {
            lemma_cell_div(side, 0, x);
        }
    }
    let base = symbol_base(side, cnt, data_len);
    assert(base[x] == core[x]);
    assert(pattern::in_finder(r, c, side));
    assert(cell_reserved(side, aps, x));
}

/// A built symbol records its metadata: the length field holds the payload
/// length modulo 2^16 and the palette pattern the bits per module.
pub proof fn lemma_symbol_metadata(side: int, cc: ColorCount, mods: Seq<u8>, data_len: usize)
    requires
        side >= 24,
    ensures
        value_of_bits(low_bit_fn(matrix_spec(side, cc.spec_count() as usize, mods, data_len)), side + 8, 16)
            == data_len % 0x10000,
        clamp_bpm(value_of_bits(low_bit_fn(matrix_spec(side, cc.spec_count() as usize, mods, data_len)), 8, 4))
            == cc.spec_bpm(),
{
    let aps = ap_positions_spec(side);
    let cnt = cc.spec_count() as usize;
    let zeros = Seq::new((side * side) as nat, |i: int| 0u8);
    let core = with_alignments(with_finders(zeros, side), side, aps, aps.len() as int);
    let cw = cpp_written(core, cnt);
    let base = symbol_base(side, cnt, data_len);
    let full = matrix_spec(side, cnt, mods, data_len);
    lemma_symbol_base_len(side, cnt, data_len);
    assert(side * side >= side + 24) by (nonlinear_arith)
        requires side >= 24;
    assert(base == data_len_written(cw, side, data_len));
    assert forall|x: int| 8 <= x < 12 || side + 8 <= x < side + 24 implies #[trigger] full[x] == base[x] by {
        lemma_metadata_reserved(side, aps, x);
    }
    lemma_data_len_roundtrip(cw, side, data_len);
    lemma_value_of_bits_congruent(low_bit_fn(full), low_bit_fn(base), side + 8, 16);
    lemma_cpp_roundtrip(core, cc);
    assert forall|x: int| 8 <= x < 12 implies #[trigger] base[x] == cw[x] by {}
    lemma_value_of_bits_congruent(low_bit_fn(full), low_bit_fn(cw), 8, 4);
}

// ---------------------------------------------------------------------------
// Rendering
// ---------------------------------------------------------------------------

/// Palette color of module value `v` (black where the palette has none).
pub open spec fn module_rgb(palette: Seq<Rgb>, v: u8) -> Rgb {
    if (v as int) < palette.len() { palette[v as int] } else { Rgb(0, 0, 0) }
}

/// Byte `ch` (0 red, 1 green, 2 blue, 3 alpha) of the opaque pixel of color `c`.
pub open spec fn channel(c: Rgb, ch: int) -> u8 {
    if ch == 0 { c.0 } else if ch == 1 { c.1 } else if ch == 2 { c.2 } else { 255 }
}

/// The RGBA image of a `side × side` module matrix, each module a square of
/// `mpx × mpx` pixels in its palette color, fully opaque.
pub open spec fn render_spec(mods: Seq<u8>, side: int, mpx: int, palette: Seq<Rgb>) -> Seq<u8> {
    let sp = side * mpx;
    Seq::new((sp * sp * 4) as nat, |i: int| {
        let pix = i / 4;
        let y = pix / sp;
        let x = pix % sp;
        channel(module_rgb(palette, mods[(y / mpx) * side + x / mpx]), i % 4)
    })
}

/// Position of pixel (y, x) in the drawing order: module row, module column,
/// row within the module, column within the module.
spec fn draw_key(y: int, x: int, side: int, mpx: int) -> int {
    (((y / mpx) * side + x / mpx) * mpx + y % mpx) * mpx + x % mpx
}

/// Byte `i` of the image belongs to a pixel whose drawing key is below `cur`.
spec fn pixel_drawn(i: int, cur: int, sp: int, sd: int, mp: int) -> bool {
    draw_key((i / 4) / sp, (i / 4) % sp, sd, mp) < cur
}

proof fn lemma_split(v: int, q: int, d: int, r: int)
    requires
        d > 0,
        0 <= r < d,
        v == q * d + r,
    ensures
        v / d == q,
        v % d == r,
{
    vstd::arithmetic::div_mod::lemma_fundamental_div_mod_converse(v, d, q, r);
}

proof fn lemma_div_below(y: int, side: int, mpx: int)
    requires
        mpx > 0,
        0 <= y < side * mpx,
    ensures
        0 <= y / mpx < side,
        0 <= y % mpx < mpx,
{
    vstd::arithmetic::div_mod::lemma_fundamental_div_mod(y, mpx);
    let q = y / mpx;
    let m = y % mpx;
    assert(0 <= m < mpx);
    assert(0 <= q < side) by (nonlinear_arith)
        requires y == mpx * q + m, 0 <= m < mpx, 0 <= y < side * mpx, mpx > 0;
}

/// The pixel drawn at step (r, c, dy, dx) has exactly that drawing key, and
/// no other pixel has it.
#[verifier::spinoff_prover]
proof fn lemma_draw_key_unique(y: int, x: int, side: int, mpx: int, r: int, c: int, dy: int, dx: int)
    requires
        side > 0,
        mpx > 0,
        0 <= y < side * mpx,
        0 <= x < side * mpx,
        0 <= r < side,
        0 <= c < side,
        0 <= dy < mpx,
        0 <= dx < mpx,
    ensures
        (draw_key(y, x, side, mpx) == ((r * side + c) * mpx + dy) * mpx + dx) <==> (y == r * mpx + dy && x == c * mpx + dx),
{
    let yr = y / mpx;
    let xc = x / mpx;
    lemma_div_below(y, side, mpx);
    lemma_div_below(x, side, mpx);
    vstd::arithmetic::div_mod::lemma_fundamental_div_mod(y, mpx);
    vstd::arithmetic::div_mod::lemma_fundamental_div_mod(x, mpx);
    let k1 = draw_key(y, x, side, mpx);
    let k2 = ((r * side + c) * mpx + dy) * mpx + dx;
    let ym = y % mpx;
    let xm = x % mpx;
    assert(k1 == ((yr * side + xc) * mpx + ym) * mpx + xm);
    if k1 == k2 {
        let a1 = (yr * side + xc) * mpx + ym;
        let a2 = (r * side + c) * mpx + dy;
        lemma_split(k1, a1, mpx, xm);
        lemma_split(k2, a2, mpx, dx);
        assert(a1 == a2 && xm == dx);
        lemma_split(a1, yr * side + xc, mpx, ym);
        lemma_split(a2, r * side + c, mpx, dy);
        assert(yr * side + xc == r * side + c && ym == dy);
        lemma_split(yr * side + xc, yr, side, xc);
        lemma_split(r * side + c, r, side, c);
        assert(yr == r && xc == c);
        assert(y == r * mpx + dy) by (nonlinear_arith)
            requires y == mpx * yr + ym, yr == r, ym == dy;
        assert(x == c * mpx + dx) by (nonlinear_arith)
            requires x == mpx * xc + xm, xc == c, xm == dx;
    }
    if y == r * mpx + dy && x == c * mpx + dx {
        lemma_split(y, r, mpx, dy);
        lemma_split(x, c, mpx, dx);
        assert(yr == r && ym == dy && xc == c && xm == dx);
        assert(k1 == k2);
    }
}

proof fn lemma_draw_key_bound(y: int, x: int, side: int, mpx: int)
    requires
        side > 0,
        mpx > 0,
        0 <= y < side * mpx,
        0 <= x < side * mpx,
    ensures
        0 <= draw_key(y, x, side, mpx) < side * side * mpx * mpx,
{
    let yr = y / mpx;
    let xc = x / mpx;
    lemma_div_below(y, side, mpx);
    lemma_div_below(x, side, mpx);
    let a = yr * side + xc;
    let ym = y % mpx;
    let xm = x % mpx;
    assert(0 <= ym < mpx && 0 <= xm < mpx);
    assert(0 <= a < side * side) by (nonlinear_arith)
        requires a == yr * side + xc, 0 <= yr < side, 0 <= xc < side;
    assert(0 <= (a * mpx + ym) * mpx + xm < side * side * mpx * mpx) by (nonlinear_arith)
        requires 0 <= a < side * side, 0 <= ym < mpx, 0 <= xm < mpx;
}

/// Render a matrix to an RGBA pixel buffer, `module_px × module_px` pixels
/// per module; module values outside the palette are drawn black.
pub fn render_rgba(mat: &JabMatrix, module_px: u32, palette: &[Rgb]) -> (pixels: Vec<u8>)
    requires
        mat.side * mat.side <= mat.modules@.len(),
        (mat.side * module_px) * (mat.side * module_px) * 4 <= usize::MAX,
    ensures
        pixels@ == render_spec(mat.modules@, mat.side as int, module_px as int, palette@),
{
    let side = mat.side;
    let mpx = module_px as usize;
    let ghost spec_px = render_spec(mat.modules@, side as int, mpx as int, palette@);
    proof {
        assert(side * mpx <= (side * mpx) * (side * mpx) * 4 || side * mpx == 0) by (nonlinear_arith);
    }
    let side_px = side * mpx;
    let total = side_px * side_px * 4;
    let mut pixels = vec![255u8; total];
    if side == 0 || mpx == 0 {
        proof {
            assert(total == 0) by (nonlinear_arith)
                requires side_px == side * mpx, total == side_px * side_px * 4, side == 0 || mpx == 0;
            assert(pixels@ =~= spec_px);
        }
        return pixels;
    }
    let ghost sp = side_px as int;
    let ghost mp = mpx as int;
    let ghost sd = side as int;
    proof {
        assert(sp > 0) by (nonlinear_arith)
            requires sp == side * mpx, side > 0, mpx > 0;
        assert forall|i: int| 0 <= i < pixels@.len() implies #[trigger] pixels@[i] == if pixel_drawn(i, 0, sp, sd, mp) { spec_px[i] } else { 255u8 } by {
            let pix = i / 4;
            assert(0 <= pix < sp * sp) by (nonlinear_arith)
                requires pix == i / 4, 0 <= i < sp * sp * 4;
            assert(0 <= pix / sp < sp && 0 <= pix % sp < sp) by (nonlinear_arith)
                requires 0 <= pix < sp * sp, sp > 0;
            lemma_draw_key_bound(pix / sp, pix % sp, sd, mp);
        }
    }
    let mut r: usize = 0;
    proof {
        assert(r * sd * mp * mp == 0) by (nonlinear_arith)
            requires r == 0;
    }
    while r < side
        invariant
            side == mat.side,
            mpx == module_px,
            side > 0,
            mpx > 0,
            sd == side,
            mp == mpx,
            sp == side_px,
            side_px == side * mpx,
            sp * sp * 4 <= usize::MAX,
            side * side <= mat.modules@.len(),
            spec_px == render_spec(mat.modules@, side as int, mpx as int, palette@),
            pixels@.len() == side_px * side_px * 4,
            r <= side,
            forall|i: int| 0 <= i < pixels@.len() ==>
                #[trigger] pixels@[i] == if pixel_drawn(i, r * sd * mp * mp, sp, sd, mp) { spec_px[i] } else { 255u8 },
        decreases side - r,
    {
        proof {
            assert(r * mpx <= side * mpx) by (nonlinear_arith)
                requires r <= side;
        }
        let pr = r * mpx;
        let mut c: usize = 0;
        while c < side
            invariant
                side == mat.side,
                mpx == module_px,
                side > 0,
                mpx > 0,
                sd == side,
                mp == mpx,
                sp == side_px,
                side_px == side * mpx,
                sp * sp * 4 <= usize::MAX,
                side * side <= mat.modules@.len(),
                spec_px == render_spec(mat.modules@, side as int, mpx as int, palette@),
                pixels@.len() == side_px * side_px * 4,
                r < side,
                pr == r * mpx,
                c <= side,
                forall|i: int| 0 <= i < pixels@.len() ==>
                    #[trigger] pixels@[i] == if pixel_drawn(i, (r * sd + c) * mp * mp, sp, sd, mp) { spec_px[i] } else { 255u8 },
            decreases side - c,
        {
            proof {
                assert(r * side + c < side * side) by (nonlinear_arith)
                    requires r < side, c < side;
            }
            proof {
                assert(c * mpx <= side * mpx) by (nonlinear_arith)
                    requires c <= side;
            }
            let color_idx = mat.get(r, c);
            let rgb = if (color_idx as usize) < palette.len() { palette[color_idx as usize] } else { Rgb(0, 0, 0) };
            let pc = c * mpx;
            proof {
                assert(pr + mpx <= side_px && pc + mpx <= side_px) by (nonlinear_arith)
                    requires pr == r * mpx, pc == c * mpx, r < side, c < side, side_px == side * mpx;
            }
            let mut dy: usize = 0;
            while dy < mpx
                invariant
                    side == mat.side,
                    mpx == module_px,
                    side > 0,
                    mpx > 0,
                    sd == side,
                    mp == mpx,
                    sp == side_px,
                    side_px == side * mpx,
                    sp * sp * 4 <= usize::MAX,
                    spec_px == render_spec(mat.modules@, side as int, mpx as int, palette@),
                    pixels@.len() == side_px * side_px * 4,
                    r < side,
                    c < side,
                    pr == r * mpx,
                    pc == c * mpx,
                    pr + mpx <= side_px,
                    pc + mpx <= side_px,
                    rgb == module_rgb(palette@, mat.modules@[r * side + c]),
                    r * side + c < side * side,
                    side * side <= mat.modules@.len(),
                    dy <= mpx,
                    forall|i: int| 0 <= i < pixels@.len() ==>
                        #[trigger] pixels@[i] == if pixel_drawn(i, ((r * sd + c) * mp + dy) * mp, sp, sd, mp) { spec_px[i] } else { 255u8 },
                decreases mpx - dy,
            {
                proof {
                    assert((pr + dy) * side_px + pc + mpx <= side_px * side_px) by (nonlinear_arith)
                        requires pr + dy < side_px, pc + mpx <= side_px;
                }
                let row_start = ((pr + dy) * side_px + pc) * 4;
                let mut dx: usize = 0;
                while dx < mpx
                    invariant
                        side == mat.side,
                        mpx == module_px,
                        side > 0,
                        mpx > 0,
                        sd == side,
                        mp == mpx,
                        sp == side_px,
                        side_px == side * mpx,
                        sp * sp * 4 <= usize::MAX,
                        spec_px == render_spec(mat.modules@, side as int, mpx as int, palette@),
                        pixels@.len() == side_px * side_px * 4,
                        r < side,
                        c < side,
                        pr == r * mpx,
                        pc == c * mpx,
                        dy < mpx,
                        pr + mpx <= side_px,
                        pc + mpx <= side_px,
                        row_start == ((pr + dy) * side_px + pc) * 4,
                        (pr + dy) * side_px + pc + mpx <= side_px * side_px,
                        rgb == module_rgb(palette@, mat.modules@[r * side + c]),
                        r * side + c < side * side,
                        side * side <= mat.modules@.len(),
                        dx <= mpx,
                        forall|i: int| 0 <= i < pixels@.len() ==>
                            #[trigger] pixels@[i] == if pixel_drawn(i, ((r * sd + c) * mp + dy) * mp + dx, sp, sd, mp) { spec_px[i] } else { 255u8 },
                    decreases mpx - dx,
                {
                    let pix = row_start + dx * 4;
                    let ghost cur = ((r * sd + c) * mp + dy) * mp + dx;
                    let ghost y = pr + dy;
                    let ghost x = pc + dx;
                    let ghost old_px = pixels@;
                    proof {
                        assert(pix == 4 * (y * sp + x));
                    }
                    pixels.set(pix, rgb.0);
                    pixels.set(pix + 1, rgb.1);
                    pixels.set(pix + 2, rgb.2);
                    pixels.set(pix + 3, 255);
                    proof {
                        assert forall|i: int| 0 <= i < pixels@.len() implies
                            #[trigger] pixels@[i] == if pixel_drawn(i, cur + 1, sp, sd, mp) { spec_px[i] } else { 255u8 } by {
                            let p = i / 4;
                            assert(0 <= p < sp * sp) by (nonlinear_arith)
                                requires p == i / 4, 0 <= i < sp * sp * 4;
                            let py = p / sp;
                            let px = p % sp;
                            assert(0 <= py < sp && 0 <= px < sp) by (nonlinear_arith)
                                requires 0 <= p < sp * sp, sp > 0, py == p / sp, px == p % sp;
                            lemma_draw_key_unique(py, px, sd, mp, r as int, c as int, dy as int, dx as int);
                            assert(pixel_drawn(i, cur + 1, sp, sd, mp) == (draw_key(py, px, sd, mp) < cur + 1));
                            assert(pixel_drawn(i, cur, sp, sd, mp) == (draw_key(py, px, sd, mp) < cur));
                            vstd::arithmetic::div_mod::lemma_fundamental_div_mod(p, sp);
                            vstd::arithmetic::div_mod::lemma_fundamental_div_mod(i, 4);
                            if py == y && px == x {
                                assert(p == y * sp + x) by (nonlinear_arith)
                                    requires p == sp * py + px, py == y, px == x;
                                assert(pix <= i < pix + 4);
                                lemma_split(y, r as int, mp, dy as int);
                                lemma_split(x, c as int, mp, dx as int);
                                assert(spec_px[i] == channel(module_rgb(palette@, mat.modules@[r * side + c]), i % 4));
                                assert(i == pix + i % 4);
                                if i % 4 == 0 {
                                    assert(pixels@[i] == rgb.0);
                                } else if i % 4 == 1 {
                                    assert(pixels@[i] == rgb.1);
                                } else if i % 4 == 2 {
                                    assert(pixels@[i] == rgb.2);
                                } else {
                                    assert(pixels@[i] == 255u8);
                                }
                                assert(draw_key(py, px, sd, mp) == cur);
                                assert(pixel_drawn(i, cur + 1, sp, sd, mp));
                            } else {
                                assert(draw_key(py, px, sd, mp) != cur);
                                assert(pixel_drawn(i, cur + 1, sp, sd, mp) == pixel_drawn(i, cur, sp, sd, mp));
                                assert(!(pix <= i < pix + 4)) by {
                                    if pix <= i < pix + 4 {
                                        assert(i / 4 == y * sp + x);
                                        lemma_split(y * sp + x, y, sp, x);
                                    }
                                }
                                assert(pixels@[i] == old_px[i]);
                            }
                        }
                    }
                    dx += 1;
                }
                proof {
                    assert(((r * sd + c) * mp + dy) * mp + mp == ((r * sd + c) * mp + dy + 1) * mp) by (nonlinear_arith);
                }
                dy += 1;
            }
            proof {
                assert(((r * sd + c) * mp + mp) * mp == ((r * sd + c + 1) * mp) * mp) by (nonlinear_arith);
                assert((r * sd + c) * mp * mp == ((r * sd + c) * mp + 0) * mp) by (nonlinear_arith);
                assert((r * sd + c + 1) * mp * mp == ((r * sd + c + 1) * mp) * mp) by (nonlinear_arith);
            }
            c += 1;
        }
        proof {
            assert((r * sd + sd) * mp * mp == (r + 1) * sd * mp * mp) by (nonlinear_arith);
            assert(r * sd * mp * mp == (r * sd + 0) * mp * mp) by (nonlinear_arith);
        }
        r += 1;
    }
    proof {
        assert forall|i: int| 0 <= i < pixels@.len() implies #[trigger] pixels@[i] == spec_px[i] by {
            let p = i / 4;
            assert(0 <= p < sp * sp) by (nonlinear_arith)
                requires p == i / 4, 0 <= i < sp * sp * 4;
            assert(0 <= p / sp < sp && 0 <= p % sp < sp) by (nonlinear_arith)
                requires 0 <= p < sp * sp, sp > 0;
            lemma_draw_key_bound(p / sp, p % sp, sd, mp);
            assert(side * sd * mp * mp == sd * sd * mp * mp);
        }
        assert(pixels@ =~= spec_px);
    }
    pixels
}

} // verus!
