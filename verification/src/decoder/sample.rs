use vstd::prelude::*;
use crate::bits::{u8_bit, pack_bits, unpack_bytes, value_of_bits, u64_bit, lemma_u64_value, lemma_zero_shifts, lemma_widen_bits, lemma_u8_set_bit};
use crate::color::{Rgb, nearest_color, nearest_spec, well_separated, lemma_nearest_palette_color};
use crate::decoder::detect::GridGeometry;
use crate::encoder::ldpc::lemma_pack_unique;
use crate::encoder::matrix::{data_cells, cell_reserved, render_spec, module_rgb, channel, cell_fn, data_rank, lemma_data_cells_agree};
use crate::encoder::pattern::{self, FP_SIZE, ap_positions_spec};

verus! {

/// Pixel column of the center of module column `c`.
pub open spec fn sample_x(geo: GridGeometry, c: int) -> int {
    geo.origin_col_px + c * geo.module_px + geo.module_px / 2
}

/// Pixel row of the center of module row `r`.
pub open spec fn sample_y(geo: GridGeometry, r: int) -> int {
    geo.origin_row_px + r * geo.module_px + geo.module_px / 2
}

/// Index in an RGBA buffer `w` pixels wide of the center pixel of module (r, c).
pub open spec fn sample_index(geo: GridGeometry, w: int, r: int, c: int) -> int {
    (sample_y(geo, r) * w + sample_x(geo, c)) * 4
}

/// Pixel coordinates and buffer indices of every module center of the grid
/// fit in 32 bits and a machine word.
pub open spec fn geometry_fits(geo: GridGeometry, w: int) -> bool {
    let e = if geo.side == 0 { 0 } else { (geo.side - 1) * geo.module_px + geo.module_px / 2 };
    &&& geo.origin_row_px + e <= u32::MAX
    &&& geo.origin_col_px + e <= u32::MAX
    &&& (geo.origin_row_px + e) * w + geo.origin_col_px + e <= u32::MAX
    &&& ((geo.origin_row_px + e) * w + geo.origin_col_px + e) * 4 + 2 <= usize::MAX
}

/// The color at byte index `i` of an RGBA buffer.
pub open spec fn observed(rgba: Seq<u8>, i: int) -> Rgb {
    Rgb(rgba[i], rgba[i + 1], rgba[i + 2])
}

/// The palette index read for module (r, c): that of the palette color
/// nearest to the module's center pixel, or 0 where the center lies right of
/// the image or past the buffer.
pub open spec fn module_sample(rgba: Seq<u8>, w: int, geo: GridGeometry, palette: Seq<Rgb>, r: int, c: int) -> u8 {
    let i = sample_index(geo, w, r, c);
    if sample_x(geo, c) >= w {
        0
    } else if i + 2 >= rgba.len() {
        0
    } else {
        nearest_spec(palette, observed(rgba, i))
    }
}

/// The sampled value of each cell of the grid.
pub open spec fn sample_fn(rgba: Seq<u8>, w: int, geo: GridGeometry, palette: Seq<Rgb>) -> spec_fn(int) -> u8 {
    |k: int| module_sample(rgba, w, geo, palette, k / (geo.side as int), k % (geo.side as int))
}

/// Pixel coordinate of the center of module `idx` along an axis starting at `origin`.
fn module_center(origin: u32, idx: usize, mpx: u32) -> (p: u32)
    requires
        origin + idx * mpx + mpx / 2 <= u32::MAX,
    ensures
        p == origin + idx * mpx + mpx / 2,
{
    if mpx == 0 {
        origin
    } else {
        proof {
            assert(idx <= idx * mpx) by (nonlinear_arith)
                requires mpx >= 1;
        }
        origin + (idx as u32) * mpx + mpx / 2
    }
}

proof fn lemma_sample_bounds(geo: GridGeometry, w: int, r: int, c: int)
    requires
        geometry_fits(geo, w),
        0 <= w,
        0 <= r < geo.side,
        0 <= c < geo.side,
    ensures
        0 <= sample_x(geo, c) <= u32::MAX,
        0 <= sample_y(geo, r) <= u32::MAX,
        0 <= sample_y(geo, r) * w + sample_x(geo, c) <= u32::MAX,
        0 <= sample_index(geo, w, r, c) + 2 <= usize::MAX,
        0 <= c * geo.module_px <= u32::MAX,
        0 <= r * geo.module_px <= u32::MAX,
{
    let m = geo.module_px as int;
    let e = (geo.side - 1) * m + m / 2;
    assert(c * m + m / 2 <= e && r * m + m / 2 <= e) by (nonlinear_arith)
        requires 0 <= r < geo.side, 0 <= c < geo.side, m >= 0, e == (geo.side - 1) * m + m / 2;
    assert(0 <= c * m && 0 <= r * m) by (nonlinear_arith)
        requires 0 <= r, 0 <= c, m >= 0;
    let y = sample_y(geo, r);
    assert(y * w <= (geo.origin_row_px + e) * w) by (nonlinear_arith)
        requires y <= geo.origin_row_px + e, w >= 0;
    assert(0 <= y * w) by (nonlinear_arith)
        requires y >= 0, w >= 0;
}

/// Read the data length from the metadata strip in the image: bit `i` is set
/// when module (1, 8 + i) lies left of column `side - 7`, its center is in
/// the buffer and it reads as a color other than 0.
pub fn read_data_len_from_image(rgba: &[u8], img_width: u32, geo: &GridGeometry, palette: &[Rgb]) -> (n: usize)
    requires
        geometry_fits(*geo, img_width as int),
    ensures
        n == value_of_bits(|i: int| len_bit(rgba@, img_width as int, *geo, palette@, i), 0, 16),
        n <= 0xffff,
{
    let mod_px = geo.module_px;
    let side = geo.side;
    let max_col = if side >= FP_SIZE { side - FP_SIZE } else { 0 };
    let mut len: u16 = 0;
    proof {
        assert forall|j: int| #![trigger (0u16 >> (j as u16))] 0 <= j < 16 implies !((0u16 >> (j as u16)) & 1 == 1) by {
            let jj = j as u16;
            lemma_zero_shifts();
            assert(!((0u16 >> jj) & 1 == 1));
        }
    }
    let mut i: usize = 0;
    while i < 16
        invariant
            geometry_fits(*geo, img_width as int),
            mod_px == geo.module_px,
            side == geo.side,
            max_col == if side >= 7 { side - 7 } else { 0 },
            i <= 16,
            forall|j: int| #![trigger (len >> (j as u16))] 0 <= j < 16 ==>
                ((len >> (j as u16)) & 1 == 1 <==> (j < i && len_bit(rgba@, img_width as int, *geo, palette@, j))),
        decreases 16 - i,
    {
        let c = FP_SIZE + 1 + i;
        let ghost old_len = len;
        let mut hit = false;
        // Columns from `side - 7` on hold no length bits.
        if c < max_col {
            proof {
                lemma_sample_bounds(*geo, img_width as int, 1, c as int);
            }
            let px = module_center(geo.origin_col_px, c, mod_px);
            let py = module_center(geo.origin_row_px, 1, mod_px);
            let idx = ((py * img_width + px) as usize) * 4;
            if idx + 2 < rgba.len() {
                let obs = Rgb(rgba[idx], rgba[idx + 1], rgba[idx + 2]);
                let color = nearest_color(palette, obs);
                if color != 0 {
                    len = len | (1u16 << (i as u16));
                    hit = true;
                }
            }
        }
        proof {
            assert(hit == len_bit(rgba@, img_width as int, *geo, palette@, i as int));
            assert forall|j: int| #![trigger (len >> (j as u16))] 0 <= j < 16 implies
                ((len >> (j as u16)) & 1 == 1 <==> (j < i + 1 && len_bit(rgba@, img_width as int, *geo, palette@, j))) by {
                let jj = j as u16;
                let ii = i as u16;
                assert((old_len >> jj) & 1 == 1 <==> (j < i && len_bit(rgba@, img_width as int, *geo, palette@, j)));
                if hit {
                    assert(((old_len | (1u16 << ii)) >> jj) & 1 == 1 <==> ((old_len >> jj) & 1 == 1 || jj == ii)) by (bit_vector)
                        requires ii < 16, jj < 16;
                }
            }
        }
        i += 1;
    }
    let ghost f = |i: int| len_bit(rgba@, img_width as int, *geo, palette@, i);
    proof {
        assert forall|j: int| #![trigger u64_bit(len as u64, j)] 0 <= j < 64 implies u64_bit(len as u64, j) == (j < 16 && f(0 + j)) by {
            let jj = j as u64;
            lemma_widen_bits();
            assert((((len as u64) >> jj) & 1 == 1) <==> (jj < 16 && (len >> (jj as u16)) & 1 == 1));
        }
        lemma_u64_value(len as u64, f, 0, 16);
    }
    len as usize
}

/// Bit `i` of the data length read from an image.
pub open spec fn len_bit(rgba: Seq<u8>, w: int, geo: GridGeometry, palette: Seq<Rgb>, i: int) -> bool {
    let c = 8 + i;
    let max_col = if geo.side >= 7 { geo.side - 7 } else { 0 };
    let idx = sample_index(geo, w, 1, c);
    &&& c < max_col
    &&& idx + 2 < rgba.len()
    &&& nearest_spec(palette, observed(rgba, idx)) != 0
}

/// Sample the color index of every unreserved module of the grid, in
/// row-major order (the order in which the encoder fills them).
pub fn sample_modules(rgba: &[u8], img_width: u32, geo: &GridGeometry, palette: &[Rgb]) -> (out: Vec<u8>)
    requires
        geometry_fits(*geo, img_width as int),
        geo.side * geo.side <= usize::MAX,
    ensures
        out@ == data_cells(sample_fn(rgba@, img_width as int, *geo, palette@), geo.side as int,
            ap_positions_spec(geo.side as int), geo.side * geo.side),
{
    let side = geo.side;
    let mod_px = geo.module_px;
    let ghost f = sample_fn(rgba@, img_width as int, *geo, palette@);
    let ghost sd = side as int;
    proof {
        assert(side + 20 <= usize::MAX) by (nonlinear_arith)
            requires side * side <= usize::MAX, usize::MAX >= 0xffff_ffff;
    }
    let ap_pos = pattern::alignment_positions(side);
    let mut out: Vec<u8> = Vec::new();
    let mut r: usize = 0;
    while r < side
        invariant
            geometry_fits(*geo, img_width as int),
            side == geo.side,
            sd == side,
            mod_px == geo.module_px,
            side * side <= usize::MAX,
            f == sample_fn(rgba@, img_width as int, *geo, palette@),
            ap_pos@ == ap_positions_spec(side as int),
            r <= side,
            out@ == data_cells(f, sd, ap_pos@, r * sd),
        decreases side - r,
    {
        let mut c: usize = 0;
        while c < side
            invariant
                geometry_fits(*geo, img_width as int),
                side == geo.side,
                sd == side,
                mod_px == geo.module_px,
                side * side <= usize::MAX,
                f == sample_fn(rgba@, img_width as int, *geo, palette@),
                ap_pos@ == ap_positions_spec(side as int),
                r < side,
                c <= side,
                out@ == data_cells(f, sd, ap_pos@, r * sd + c),
            decreases side - c,
        {
            let ghost k = r * sd + c;
            proof {
                vstd::arithmetic::div_mod::lemma_fundamental_div_mod_converse(k, sd, r as int, c as int);
            }
            if !pattern::is_reserved(r, c, side, ap_pos.as_slice()) {
                proof {
                    lemma_sample_bounds(*geo, img_width as int, r as int, c as int);
                }
                let px = module_center(geo.origin_col_px, c, mod_px);
                let py = module_center(geo.origin_row_px, r, mod_px);
                let v = if px >= img_width {
                    0u8
                } else {
                    let idx = ((py * img_width + px) as usize) * 4;
                    if idx + 2 >= rgba.len() {
                        0u8
                    } else {
                        let obs = Rgb(rgba[idx], rgba[idx + 1], rgba[idx + 2]);
                        nearest_color(palette, obs)
                    }
                };
                proof {
                    assert(v == f(k));
                }
                out.push(v);
            }
            proof {
                assert(out@ =~= data_cells(f, sd, ap_pos@, k + 1));
            }
            c += 1;
        }
        proof {
            assert(r * sd + sd == (r + 1) * sd) by (nonlinear_arith);
        }
        r += 1;
    }
    out
}

/// The bits of a module stream: bit `x` is bit `x mod bpm` of module `x / bpm`.
pub open spec fn module_stream_bits(modules: Seq<u8>, bpm: int) -> Seq<bool> {
    Seq::new((modules.len() * bpm) as nat, |x: int| u8_bit(modules[x / bpm], x % bpm))
}

/// Convert a sampled module stream (color indices, `bpm` bits each) back to
/// bytes holding the bit stream, least significant bit first.
pub fn modules_to_bits(modules: &[u8], bpm: u8) -> (out: Vec<u8>)
    requires
        bpm <= 8,
        modules@.len() * bpm + 7 <= usize::MAX,
    ensures
        out@ == pack_bits(module_stream_bits(modules@, bpm as int)),
{
    let ghost s = module_stream_bits(modules@, bpm as int);
    let total_bits = modules.len() * (bpm as usize);
    let mut out = vec![0u8; (total_bits + 7) / 8];
    proof {
        assert forall|x: int| 0 <= x < 8 * out@.len() implies !#[trigger] unpack_bytes(out@)[x] by {
            assert(out@[x / 8] == 0u8);
            let j = (x % 8) as u8;
            lemma_zero_shifts();
            assert(!((0u8 >> j) & 1 == 1));
        }
    }
    let mut i: usize = 0;
    while i < modules.len()
        invariant
            bpm <= 8,
            total_bits == modules@.len() * bpm,
            total_bits + 7 <= usize::MAX,
            s == module_stream_bits(modules@, bpm as int),
            i <= modules@.len(),
            out@.len() == (total_bits + 7) / 8,
            forall|x: int| 0 <= x < 8 * out@.len() ==> #[trigger] unpack_bytes(out@)[x] == (x < i * bpm && s[x]),
        decreases modules.len() - i,
    {
        let m = modules[i];
        proof {
            assert((i + 1) * bpm <= total_bits) by (nonlinear_arith)
                requires i < modules@.len(), total_bits == modules@.len() * bpm;
            assert(i * bpm + bpm == (i + 1) * bpm) by (nonlinear_arith);
        }
        let bit_off = i * (bpm as usize);
        let mut b: usize = 0;
        while b < bpm as usize
            invariant
                bpm <= 8,
                total_bits == modules@.len() * bpm,
                total_bits + 7 <= usize::MAX,
                s == module_stream_bits(modules@, bpm as int),
                i < modules@.len(),
                m == modules@[i as int],
                bit_off == i * bpm,
                bit_off + bpm <= total_bits,
                b <= bpm,
                out@.len() == (total_bits + 7) / 8,
                forall|x: int| 0 <= x < 8 * out@.len() ==> #[trigger] unpack_bytes(out@)[x] == (x < bit_off + b && s[x]),
            decreases bpm - b,
        {
            let pos = bit_off + b;
            proof {
                if bpm > 0 {
                    vstd::arithmetic::div_mod::lemma_fundamental_div_mod_converse(pos as int, bpm as int, i as int, b as int);
                }
                assert(s[pos as int] == u8_bit(m, b as int));
            }
            if (m >> (b as u8)) & 1 == 1 {
                let ghost before = out@;
                let idx = pos / 8;
                let sh = (pos % 8) as u8;
                let byte = out[idx];
                out.set(idx, byte | (1u8 << sh));
                proof {
                    assert forall|x: int| 0 <= x < 8 * out@.len() implies #[trigger] unpack_bytes(out@)[x] == (x < pos + 1 && s[x]) by {
                        assert(unpack_bytes(before)[x] == (x < pos && s[x]));
                        if x / 8 == idx as int {
                            let jj = (x % 8) as u8;
                            lemma_u8_set_bit();
                            assert((((byte | (1u8 << sh)) >> jj) & 1 == 1) == (jj == sh || (byte >> jj) & 1 == 1));
                            assert(x == pos <==> x % 8 == sh);
                        }
                    }
                }
            } else {
                proof {
                    assert forall|x: int| 0 <= x < 8 * out@.len() implies #[trigger] unpack_bytes(out@)[x] == (x < pos + 1 && s[x]) by {
                        if x == pos {
                            assert(!u8_bit(m, b as int));
                        }
                    }
                }
            }
            b += 1;
        }
        i += 1;
    }
    proof {
        lemma_pack_unique(out@, s);
    }
    out
}

/// The grid of a symbol rendered on its own: the top-left module at pixel
/// (0, 0).
pub open spec fn render_grid(side: usize, mpx: u32) -> GridGeometry {
    GridGeometry { origin_row_px: 0, origin_col_px: 0, side, module_px: mpx }
}

proof fn lemma_div_split(v: int, q: int, d: int, r: int)
    requires
        d > 0,
        0 <= r < d,
        v == q * d + r,
    ensures
        v / d == q,
        v % d == r,
{
    vstd::arithmetic::div_mod::lemma_fundamental_div_mod_converse(v, d, q, r);
}

/// The center pixel of module (r, c) of a render shows that module's color.
pub proof fn lemma_render_center(mods: Seq<u8>, side: usize, mpx: u32, palette: Seq<Rgb>, r: int, c: int)
    requires
        side >= 1,
        mpx >= 1,
        mods.len() == side * side,
        0 <= r < side,
        0 <= c < side,
    ensures ({
        let g = render_grid(side, mpx);
        let w = side * mpx;
        let img = render_spec(mods, side as int, mpx as int, palette);
        let i = sample_index(g, w, r, c);
        &&& 0 <= sample_x(g, c) < w
        &&& 0 <= i
        &&& i + 2 < img.len()
        &&& observed(img, i) == module_rgb(palette, mods[r * side + c])
    }),
{
    let g = render_grid(side, mpx);
    let m = mpx as int;
    let sd = side as int;
    let w = sd * m;
    let img = render_spec(mods, sd, m, palette);
    let x = sample_x(g, c);
    let y = sample_y(g, r);
    let h = m / 2;
    assert(x == c * m + h && y == r * m + h);
    assert(0 <= h < m);
    assert(0 <= x < w && 0 <= y < w) by (nonlinear_arith)
        requires x == c * m + h, y == r * m + h, 0 <= h < m, 0 <= r < sd, 0 <= c < sd, w == sd * m;
    let pix = y * w + x;
    assert(0 <= pix < w * w) by (nonlinear_arith)
        requires pix == y * w + x, 0 <= x < w, 0 <= y < w;
    let i = sample_index(g, w, r, c);
    assert(i == pix * 4);
    assert(img.len() == w * w * 4);
    lemma_div_split(pix, y, w, x);
    lemma_div_split(y, r, m, h);
    lemma_div_split(x, c, m, h);
    assert forall|ch: int| 0 <= ch < 3 implies #[trigger] img[i + ch] == channel(module_rgb(palette, mods[r * sd + c]), ch) by {
        lemma_div_split(i + ch, pix, 4, ch);
    }
}

/// Sampling a render on its own grid reads back every module whose value is
/// a color of a palette with colors far apart.
pub proof fn lemma_sample_render(mods: Seq<u8>, side: usize, mpx: u32, palette: Seq<Rgb>, k: int)
    requires
        side >= 1,
        mpx >= 1,
        mods.len() == side * side,
        0 <= k < side * side,
        (mods[k] as int) < palette.len(),
        palette.len() <= 256,
        well_separated(palette),
    ensures
        sample_fn(render_spec(mods, side as int, mpx as int, palette), side * mpx, render_grid(side, mpx), palette)(k) == mods[k],
{
    let sd = side as int;
    let r = k / sd;
    let c = k % sd;
    vstd::arithmetic::div_mod::lemma_fundamental_div_mod(k, sd);
    assert(0 <= r < sd) by (nonlinear_arith)
        requires 0 <= k < sd * sd, sd >= 1, r == k / sd;
    assert(r * sd + c == k) by (nonlinear_arith)
        requires k == sd * r + c;
    lemma_render_center(mods, side, mpx, palette, r, c);
    let v = mods[k];
    assert(module_rgb(palette, v) == palette[v as int]);
    lemma_nearest_palette_color(palette, v as int);
}


/// Sampling the render of a module matrix on its own grid gives back its
/// data cells in raster order, when every module is a color of a palette
/// with colors far apart: what `sample_modules` reads from the image is
/// what `data_modules` reads from the matrix.
pub proof fn lemma_sample_render_cells(mods: Seq<u8>, side: usize, mpx: u32, palette: Seq<Rgb>)
    requires
        side >= 1,
        mpx >= 1,
        mods.len() == side * side,
        forall|k: int| 0 <= k < mods.len() ==> (#[trigger] mods[k] as int) < palette.len(),
        palette.len() <= 256,
        well_separated(palette),
    ensures
        data_cells(sample_fn(render_spec(mods, side as int, mpx as int, palette), side * mpx, render_grid(side, mpx), palette),
            side as int, ap_positions_spec(side as int), side * side)
            == data_cells(cell_fn(mods), side as int, ap_positions_spec(side as int), side * side),
{
    let sd = side as int;
    let aps = ap_positions_spec(sd);
    let fs = sample_fn(render_spec(mods, sd, mpx as int, palette), side * mpx, render_grid(side, mpx), palette);
    let fm = cell_fn(mods);
    let n = data_rank(sd, aps, sd * sd) as int;
    assert forall|x: int| 0 <= x < sd * sd && !cell_reserved(sd, aps, x) && data_rank(sd, aps, x) < n
        implies #[trigger] fs(x) == fm(x) by {
        assert((mods[x] as int) < palette.len());
        lemma_sample_render(mods, side, mpx, palette, x);
    }
    lemma_data_cells_agree(fs, fm, sd, aps, sd * sd, n);
    assert(data_cells(fs, sd, aps, sd * sd) =~= data_cells(fm, sd, aps, sd * sd));
}
} // verus!
