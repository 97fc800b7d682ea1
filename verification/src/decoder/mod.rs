pub mod detect;
pub mod sample;

use vstd::prelude::*;
use crate::bits::{pack_bits, unpack_bytes, value_of_bits, bit_at, u8_bit, lemma_bits_value_byte, lemma_u8_bits_eq};
use crate::encoder::{modules_of, encode_fits, encode_side, encode_modules, encode_stream, encode_codeword, pad_len};
use crate::encoder::capacity::lemma_data_cells_cover_estimate;
use crate::encoder::ldpc::{checks_hold, lemma_clean_codeword_decodes, lemma_checks_agree, lemma_unpack_pack};
use crate::encoder::matrix::{corner_row, corner_col, lemma_finder_cells, matrix_spec, symbol_base, lemma_symbol_base_len, lemma_data_cells_prefix, lemma_data_cells_fill, lemma_symbol_metadata, lemma_symbol_side, usable_spec, data_rank,
    render_spec, module_rgb, lemma_data_cells_agree, lemma_length_field_cells};
use crate::color::{lemma_palette_separated, lemma_nearest_palette_color};
use crate::bits::{lemma_value_of_bits_bound, lemma_value_of_bits_shift};
use crate::config::lemma_bpm_is_log2_of_count;
use crate::color::{Rgb, build_palette, palette_spec};
use crate::config::{JabConfig, ColorCount};
use crate::encoder::ldpc::{LdpcCodec, codeword_len, h_fits};
use crate::encoder::matrix::{JabMatrix, data_cells, cell_fn, cell_reserved};
use crate::encoder::pattern::{self, ap_positions_spec, low_bit_fn};
use crate::error::JabError;
use detect::{
    GridGeometry, ScanInput, compute_geometry, detect_fps, detect_spec, fp_span, geometry_side, image_ok,
    lemma_detect_in_image, min4, corner_loc, corner_matches, only_corners_match, lemma_detect_corners,
    fp_mismatches, fp_sample_index,
};
use sample::{geometry_fits, module_stream_bits, modules_to_bits, read_data_len_from_image, sample_modules, sample_fn, len_bit,
    render_grid, lemma_render_center, lemma_sample_render, sample_index, observed};

verus! {

/// What the LDPC decoder needs to recover a payload: the codec for the
/// stored length, the received codeword bytes and the payload length in bytes.
pub struct DecodeJob {
    /// The codec with the encoder's parameters.
    pub codec: LdpcCodec,
    /// The received codeword, least significant bit of each byte first.
    pub received: Vec<u8>,
    /// Payload length in bytes.
    pub data_len: usize,
}

/// A decode job read from an image, with what soft decoding needs besides.
pub struct ImageDecodeJob {
    /// The hard-decision job.
    pub job: DecodeJob,
    /// The sampled data modules handed to the decoder.
    pub modules: Vec<u8>,
    /// The palette used.
    pub palette: Vec<Rgb>,
    /// Bits per module.
    pub bpm: u8,
}

/// Number of modules that hold `n` codeword bits at `bpm` bits per module.
pub open spec fn needed_modules(n: int, bpm: int) -> int {
    (n + bpm - 1) / bpm
}

/// The first `needed` modules of `all` (all of them if there are fewer).
pub open spec fn take_modules(all: Seq<u8>, needed: int) -> Seq<u8> {
    if needed <= all.len() { all.take(needed) } else { all }
}

/// The codeword bytes read from the data cells `cells`: the first modules
/// that hold `n` bits, `bpm` bits each, read back into bits and packed.
pub open spec fn received_bytes(cells: Seq<u8>, n: int, bpm: int) -> Seq<u8> {
    pack_bits(module_stream_bits(take_modules(cells, needed_modules(n, bpm)), bpm))
}

/// A codec for any payload whose length fits the 16-bit length field can be built.
proof fn lemma_small_payload_fits(count: int, cfg: JabConfig)
    requires
        0 <= count <= 0xffff,
    ensures
        (8 * count) * 4 + 2 <= usize::MAX,
        codeword_len(8 * count, cfg.ecc) + 7 <= usize::MAX,
        h_fits(8 * count, codeword_len(8 * count, cfg.ecc) - 8 * count),
        codeword_len(8 * count, cfg.ecc) >= 8 * count,
        codeword_len(8 * count, cfg.ecc) <= 4 * (8 * count) + 2,
{
    let k = 8 * count;
    let (num, den) = cfg.ecc.spec_rate();
    let n = codeword_len(k, cfg.ecc);
    assert(k * den <= 4 * k) by (nonlinear_arith)
        requires den <= 4, k >= 0;
    assert(n <= k * den + 2) by (nonlinear_arith)
        requires n == (k * den + num - 1) / (num as int), 1 <= num <= 3, k >= 0, den >= 0;
    assert(n >= k) by (nonlinear_arith)
        requires n == (k * den + num - 1) / (num as int), 1 <= num <= 3, den >= 2, 3 * den >= 4 * num, k >= 0;
}

/// Reading the first `t` modules cut from a bit stream back into bits gives
/// the first `t · bpm` bits of the stream.
pub proof fn lemma_module_stream_roundtrip(s: Seq<bool>, bpm: int, t: int)
    requires
        1 <= bpm <= 8,
        0 <= t <= s.len() as int / bpm,
    ensures
        module_stream_bits(modules_of(s, bpm).take(t), bpm) == s.take(t * bpm),
{
    let mods = modules_of(s, bpm);
    let out = module_stream_bits(mods.take(t), bpm);
    assert(t * bpm <= s.len()) by (nonlinear_arith)
        requires 0 <= t <= s.len() as int / bpm, bpm >= 1;
    assert forall|x: int| 0 <= x < t * bpm implies #[trigger] out[x] == s[x] by {
        let i = x / bpm;
        let j = x % bpm;
        assert(0 <= i < t && 0 <= j < bpm && i * bpm + j == x) by (nonlinear_arith)
            requires 0 <= x < t * bpm, bpm >= 1, i == x / bpm, j == x % bpm;
        lemma_bits_value_byte(s, i * bpm, bpm as nat);
        assert(u8_bit(mods[i], j) == (j < bpm && bit_at(s, i * bpm + j)));
    }
    assert(out =~= s.take(t * bpm));
}

/// The module stream of `data`: it fills whole modules and covers the
/// codeword bits, so the modules that the decoder reads are all there.
proof fn lemma_stream_covers(data: Seq<u8>, cfg: JabConfig)
    requires
        encode_fits(data, cfg),
    ensures ({
        let bpm = cfg.colors.spec_bpm() as int;
        let k = (8 * data.len()) as int;
        let n = codeword_len(k, cfg.ecc);
        let stream = encode_stream(data, cfg);
        &&& stream.len() as int % bpm == 0
        &&& encode_modules(data, cfg).len() == stream.len() as int / bpm
        &&& n <= 8 * encode_codeword(data, cfg).len()
        &&& k <= n
        &&& needed_modules(n, bpm) <= encode_modules(data, cfg).len()
        &&& n <= needed_modules(n, bpm) * bpm
    }),
{
    let bpm = cfg.colors.spec_bpm() as int;
    let k = (8 * data.len()) as int;
    let n = codeword_len(k, cfg.ecc);
    let cw = encode_codeword(data, cfg);
    let stream = encode_stream(data, cfg);
    let base_len = (8 * cw.len()) as int;
    let pad = pad_len(base_len, bpm);
    lemma_small_payload_fits_k(k, cfg);
    assert(stream.len() == base_len + pad);
    assert((base_len + pad) % bpm == 0) by (nonlinear_arith)
        requires pad == (bpm - base_len % bpm) % bpm, bpm >= 2, base_len >= 0;
    let m = n - k;
    assert(cw.len() == data.len() + (m + 7) / 8);
    assert(n <= base_len);
    let l = stream.len() as int;
    let need = needed_modules(n, bpm);
    assert(need <= l / bpm && n <= need * bpm) by (nonlinear_arith)
        requires need == (n + bpm - 1) / bpm, l % bpm == 0, n <= l, bpm >= 2, n >= 0;
}

/// The codec sizes for `k` data bits under `cfg`.
proof fn lemma_small_payload_fits_k(k: int, cfg: JabConfig)
    requires
        k >= 0,
    ensures
        codeword_len(k, cfg.ecc) >= k,
{
    let (num, den) = cfg.ecc.spec_rate();
    let n = codeword_len(k, cfg.ecc);
    assert(n >= k) by (nonlinear_arith)
        requires n == (k * den + num - 1) / (num as int), 1 <= num <= 3, den >= 2, 3 * den >= 4 * num, k >= 0;
}

/// Round trip through a symbol: the codeword read back from the data cells
/// of the symbol that encodes `data` passes every parity check and begins
/// with the data bytes, and the symbol stores the payload length modulo 2^16.
pub proof fn lemma_symbol_round_trip(data: Seq<u8>, cfg: JabConfig)
    requires
        encode_fits(data, cfg),
    ensures ({
        let side = encode_side(data, cfg);
        let mods = matrix_spec(side, cfg.colors.spec_count() as usize, encode_modules(data, cfg), data.len() as usize);
        let k = (8 * data.len()) as int;
        let n = codeword_len(k, cfg.ecc);
        let received = received_bytes(
            data_cells(cell_fn(mods), side, ap_positions_spec(side), side * side),
            n,
            cfg.colors.spec_bpm() as int,
        );
        &&& value_of_bits(low_bit_fn(mods), side + 8, 16) == data.len() % 0x10000
        &&& checks_hold(unpack_bytes(received), k, n - k)
        &&& received.take(data.len() as int) == data
    }),
{
    let bpm = cfg.colors.spec_bpm() as int;
    let cc = cfg.colors.spec_count() as usize;
    let k = (8 * data.len()) as int;
    let n = codeword_len(k, cfg.ecc);
    let m = n - k;
    let cw = encode_codeword(data, cfg);
    let stream = encode_stream(data, cfg);
    let em = encode_modules(data, cfg);
    let side = encode_side(data, cfg);
    let aps = ap_positions_spec(side);
    let base = symbol_base(side, cc, data.len() as usize);
    let mods = matrix_spec(side, cc, em, data.len() as usize);
    let dc = data_cells(cell_fn(mods), side, aps, side * side);
    let need = needed_modules(n, bpm);
    lemma_stream_covers(data, cfg);

    // The symbol has room for every module.
    lemma_symbol_side(em.len() * bpm, bpm);
    assert(em.len() <= usable_spec(side)) by (nonlinear_arith)
        requires usable_spec(side) * bpm >= em.len() * bpm, bpm >= 1;
    assert(side + 20 <= usize::MAX) by (nonlinear_arith)
        requires (side + 20) * (side + 20) * 16 <= usize::MAX, side >= 21;
    lemma_data_cells_cover_estimate(side);
    lemma_symbol_base_len(side, cc, data.len() as usize);
    lemma_data_cells_prefix(base, side, aps, em);
    lemma_data_cells_fill(base, side, aps, em, side * side);
    assert(take_modules(dc, need) == em.take(need)) by {
        assert(dc.take(em.len() as int).take(need) =~= dc.take(need));
    }

    // The modules read back spell the stream, which begins with the codeword.
    lemma_module_stream_roundtrip(stream, bpm, need);
    let bits = module_stream_bits(em.take(need), bpm);
    assert(bits == stream.take(need * bpm));
    let received = pack_bits(bits);
    lemma_unpack_pack(bits);
    assert forall|x: int| 0 <= x < n implies #[trigger] bit_at(unpack_bytes(received), x) == bit_at(unpack_bytes(cw), x) by {
        assert(unpack_bytes(received)[x] == bit_at(bits, x));
        assert(bits[x] == stream[x]);
    }

    // The codeword passes the checks, and so does what was read.
    assert(8 * data.len() + m <= u32::MAX);
    lemma_clean_codeword_decodes(data, m);
    lemma_checks_agree(unpack_bytes(received), unpack_bytes(cw), k, m);

    // Its first bytes are the data.
    assert(received.len() >= data.len());
    assert forall|i: int| 0 <= i < data.len() implies #[trigger] received[i] == data[i] by {
        assert forall|j: int| 0 <= j < 8 implies u8_bit(received[i], j) == u8_bit(data[i], j) by {
            assert((8 * i + j) / 8 == i && (8 * i + j) % 8 == j);
            assert(bit_at(unpack_bytes(received), 8 * i + j) == bit_at(unpack_bytes(cw), 8 * i + j));
            assert(cw[i] == data[i]);
        }
        lemma_u8_bits_eq(received[i], data[i]);
    }
    assert(received.take(data.len() as int) =~= data);

    // The length field.
    lemma_symbol_metadata(side, cfg.colors, em, data.len() as usize);
}

/// Every module value of an encoding is a color index of the palette.
proof fn lemma_modules_in_palette(data: Seq<u8>, cfg: JabConfig, i: int)
    requires
        0 <= i < encode_modules(data, cfg).len(),
    ensures
        (encode_modules(data, cfg)[i] as int) < cfg.colors.spec_count(),
{
    let bpm = cfg.colors.spec_bpm() as int;
    let stream = encode_stream(data, cfg);
    lemma_bpm_is_log2_of_count(cfg.colors);
    lemma_value_of_bits_bound(|j: int| bit_at(stream, j), i * bpm, bpm as nat);
    lemma_bits_value_byte(stream, i * bpm, bpm as nat);
}

/// Round trip through the rendered image: sampling the render of the symbol
/// that encodes `data` on its own grid gives a codeword that passes every
/// parity check and begins with the data bytes, and reads back the payload
/// length modulo 2^16.
pub proof fn lemma_render_round_trip(data: Seq<u8>, cfg: JabConfig)
    requires
        encode_fits(data, cfg),
        cfg.module_size >= 1,
    ensures ({
        let side = encode_side(data, cfg);
        let mods = matrix_spec(side, cfg.colors.spec_count() as usize, encode_modules(data, cfg), data.len() as usize);
        let palette = palette_spec(cfg.colors.spec_count() as int);
        let img = render_spec(mods, side, cfg.module_size as int, palette);
        let w = side * cfg.module_size;
        let geo = render_grid(side as usize, cfg.module_size);
        let k = (8 * data.len()) as int;
        let n = codeword_len(k, cfg.ecc);
        let received = received_bytes(
            data_cells(sample_fn(img, w, geo, palette), side, ap_positions_spec(side), side * side),
            n,
            cfg.colors.spec_bpm() as int,
        );
        &&& value_of_bits(|i: int| len_bit(img, w, geo, palette, i), 0, 16) == data.len() % 0x10000
        &&& checks_hold(unpack_bytes(received), k, n - k)
        &&& received.take(data.len() as int) == data
    }),
{
    let bpm = cfg.colors.spec_bpm() as int;
    let cnt = cfg.colors.spec_count() as usize;
    let k = (8 * data.len()) as int;
    let n = codeword_len(k, cfg.ecc);
    let em = encode_modules(data, cfg);
    let side = encode_side(data, cfg);
    let aps = ap_positions_spec(side);
    let base = symbol_base(side, cnt, data.len() as usize);
    let mods = matrix_spec(side, cnt, em, data.len() as usize);
    let palette = palette_spec(cnt as int);
    let mpx = cfg.module_size;
    let img = render_spec(mods, side, mpx as int, palette);
    let w = side * mpx;
    let geo = render_grid(side as usize, mpx);
    let need = needed_modules(n, bpm);
    lemma_stream_covers(data, cfg);
    lemma_symbol_round_trip(data, cfg);
    lemma_palette_separated(cfg.colors);
    lemma_symbol_side(em.len() * bpm, bpm);
    lemma_symbol_base_len(side, cnt, data.len() as usize);
    assert(side as usize as int == side);
    assert(mods.len() == side * side);

    // The data cells sampled from the image are those of the symbol.
    let fs = sample_fn(img, w, geo, palette);
    let fm = cell_fn(mods);
    assert forall|x: int| 0 <= x < side * side && !cell_reserved(side, aps, x) && data_rank(side, aps, x) < need
        implies #[trigger] fs(x) == fm(x) by {
        lemma_modules_in_palette(data, cfg, data_rank(side, aps, x) as int);
        assert(mods[x] == em[data_rank(side, aps, x) as int]);
        lemma_sample_render(mods, side as usize, mpx, palette, x);
    }
    lemma_data_cells_agree(fs, fm, side, aps, side * side, need);
    let ds = data_cells(fs, side, aps, side * side);
    let dm = data_cells(fm, side, aps, side * side);
    lemma_data_cells_fill(base, side, aps, em, side * side);
    assert(em.len() <= usable_spec(side)) by (nonlinear_arith)
        requires usable_spec(side) * bpm >= em.len() * bpm, bpm >= 1;
    assert(side + 20 <= usize::MAX) by (nonlinear_arith)
        requires (side + 20) * (side + 20) * 16 <= usize::MAX, side >= 21;
    lemma_data_cells_cover_estimate(side);
    assert(take_modules(ds, need) =~= take_modules(dm, need));

    // The length field.
    lemma_render_length(side as usize, cfg.colors, em, data.len() as usize, mpx);
}

/// The length stored in a built symbol reads back from its render: on a
/// symbol of at least 31 modules a side, whatever its data modules, the
/// sixteen length bits sampled from the image on the grid it was drawn on
/// give the stored length modulo 2^16.
pub proof fn lemma_render_length(side: usize, cc: ColorCount, mods: Seq<u8>, data_len: usize, mpx: u32)
    requires
        side >= 31,
        mpx >= 1,
    ensures ({
        let m = matrix_spec(side as int, cc.spec_count() as usize, mods, data_len);
        let palette = palette_spec(cc.spec_count() as int);
        let img = render_spec(m, side as int, mpx as int, palette);
        value_of_bits(|i: int| len_bit(img, side * mpx, render_grid(side, mpx), palette, i), 0, 16)
            == data_len % 0x10000
    }),
{
    let sd = side as int;
    let cnt = cc.spec_count() as usize;
    let m = matrix_spec(sd, cnt, mods, data_len);
    let palette = palette_spec(cnt as int);
    let img = render_spec(m, sd, mpx as int, palette);
    let w = side * mpx;
    let geo = render_grid(side, mpx);
    lemma_symbol_base_len(sd, cnt, data_len);
    lemma_palette_separated(cc);
    let lb = |i: int| len_bit(img, w, geo, palette, i);
    assert forall|i: int| #![trigger lb(0 + i)] 0 <= i < 16 implies lb(0 + i) == low_bit_fn(m)(sd + 8 + i) by {
        lemma_length_field_cells(sd, cc, mods, data_len, i);
        lemma_render_center(m, side, mpx, palette, 1, 8 + i);
        let v = m[sd + 8 + i];
        assert(v == 0 || v == 1);
        assert(sd * 1 + (8 + i) == sd + 8 + i);
        assert(module_rgb(palette, v) == palette[v as int]);
        lemma_nearest_palette_color(palette, v as int);
        assert((v & 1 == 1) == (v == 1)) by (bit_vector)
            requires v == 0 || v == 1;
    }
    lemma_value_of_bits_shift(lb, low_bit_fn(m), 0, sd + 8, 16);
    lemma_symbol_metadata(sd, cc, mods, data_len);
}

/// The image of the symbol that encodes `data` under `cfg`, drawn from
/// pixel (0, 0) in the palette of `cfg`.
pub open spec fn symbol_image(data: Seq<u8>, cfg: JabConfig) -> Seq<u8> {
    let side = encode_side(data, cfg);
    let mods = matrix_spec(side, cfg.colors.spec_count() as usize, encode_modules(data, cfg), data.len() as usize);
    render_spec(mods, side, cfg.module_size as int, palette_spec(cfg.colors.spec_count() as int))
}

/// What the finder pattern search reads of that image: the image, its
/// width and height, the palette and the module size of `cfg`.
pub open spec fn symbol_scan(data: Seq<u8>, cfg: JabConfig) -> ScanInput {
    let sp = encode_side(data, cfg) * cfg.module_size;
    ScanInput {
        rgba: symbol_image(data, cfg),
        w: sp,
        h: sp,
        palette: palette_spec(cfg.colors.spec_count() as int),
        mpx: cfg.module_size as int,
    }
}

/// The first `t` modules of the corner window of finder pattern `f` in the
/// render of a built symbol all read as pattern `f`.
proof fn lemma_render_corner(side: int, cc: ColorCount, mods: Seq<u8>, data_len: usize, mpx: u32, f: int, t: int)
    requires
        side >= 33,
        side + 20 <= usize::MAX,
        mpx >= 1,
        0 <= f < 4,
        0 <= t <= 49,
    ensures ({
        let m = matrix_spec(side, cc.spec_count() as usize, mods, data_len);
        let pal = palette_spec(cc.spec_count() as int);
        let img = render_spec(m, side, mpx as int, pal);
        fp_mismatches(img, side * mpx, corner_row(side, f) * mpx, corner_col(side, f) * mpx, mpx as int, pal, f, t) == 0
    }),
    decreases t,
{
    if t > 0 {
        lemma_render_corner(side, cc, mods, data_len, mpx, f, t - 1);
        let cnt = cc.spec_count() as usize;
        let m = matrix_spec(side, cnt, mods, data_len);
        let pal = palette_spec(cnt as int);
        let mp = mpx as int;
        let w = side * mp;
        let mr = (t - 1) / 7;
        let mc = (t - 1) % 7;
        let r0 = corner_row(side, f);
        let c0 = corner_col(side, f);
        let r = r0 + mr;
        let c = c0 + mc;
        lemma_finder_cells(side, cc, mods, data_len, f, mr, mc);
        lemma_symbol_base_len(side, cnt, data_len);
        assert(side as usize as int == side);
        lemma_render_center(m, side as usize, mpx, pal, r, c);
        let g = render_grid(side as usize, mpx);
        assert(fp_sample_index(w, r0 * mp, c0 * mp, mp, mr, mc) == sample_index(g, w, r, c)) by (nonlinear_arith)
            requires
                r == r0 + mr,
                c == c0 + mc,
                sample_index(g, w, r, c) == ((0 + r * mp + mp / 2) * w + 0 + c * mp + mp / 2) * 4,
                fp_sample_index(w, r0 * mp, c0 * mp, mp, mr, mc) == ((r0 * mp + mr * mp + mp / 2) * w + c0 * mp + mc * mp + mp / 2) * 4;
        let v = m[r * side + c];
        assert(v == pattern::fp_color_spec(f, mr, mc));
        assert(v < 4);
        lemma_palette_separated(cc);
        assert(module_rgb(pal, v) == pal[v as int]);
        lemma_nearest_palette_color(pal, v as int);
    }
}

/// Locating a rendered symbol: in the image of the symbol that encodes
/// `data`, drawn from pixel (0, 0), each finder pattern reads as itself at
/// its corner. Where no other module-aligned window of the image reads as
/// a finder pattern within three mismatching modules, the search reports
/// the four corners, each pattern in its own slot, and the grid located is
/// the grid the symbol was drawn on.
pub proof fn lemma_detect_render(data: Seq<u8>, cfg: JabConfig)
    requires
        encode_fits(data, cfg),
        cfg.module_size >= 1,
        only_corners_match(symbol_scan(data, cfg), encode_side(data, cfg)),
    ensures
        forall|f: int| 0 <= f < 4 ==> #[trigger] corner_matches(symbol_scan(data, cfg), encode_side(data, cfg), f),
        detect_spec(symbol_scan(data, cfg))
            == Some(Seq::new(4, |f: int| corner_loc(encode_side(data, cfg), cfg.module_size as int, f))),
        locate_spec(symbol_image(data, cfg), symbol_scan(data, cfg).w, symbol_scan(data, cfg).h, cfg)
            == Ok::<GridGeometry, JabError>(render_grid(encode_side(data, cfg) as usize, cfg.module_size)),
{
    let bpm = cfg.colors.spec_bpm() as int;
    let em = encode_modules(data, cfg);
    let side = encode_side(data, cfg);
    let inp = symbol_scan(data, cfg);
    let mp = cfg.module_size as int;
    lemma_symbol_side(em.len() * bpm, bpm);
    assert(side + 20 <= usize::MAX) by (nonlinear_arith)
        requires (side + 20) * (side + 20) * 16 <= usize::MAX, side >= 21;
    assert forall|f: int| 0 <= f < 4 implies #[trigger] corner_matches(inp, side, f) by {
        lemma_render_corner(side, cfg.colors, em, data.len() as usize, cfg.module_size, f, 49);
    }
    lemma_detect_corners(inp, side);
    // The grid spanned by the four corners.
    let locs = Seq::new(4, |f: int| corner_loc(side, mp, f));
    assert(0 <= (side - 7) * mp <= side * mp) by (nonlinear_arith)
        requires side >= 33, mp >= 1;
    assert(locs[0].row_px == 0 && locs[0].col_px == 0);
    assert(locs[1].row_px == 0 && locs[1].col_px == (side - 7) * mp);
    assert(locs[2].row_px == (side - 7) * mp && locs[2].col_px == 0);
    assert(locs[3].row_px == (side - 7) * mp && locs[3].col_px == (side - 7) * mp);
    assert(fp_span(locs) == (side - 7) * mp);
    assert((side - 7) * mp + 7 * mp + mp / 2 == side * mp + mp / 2) by (nonlinear_arith);
    vstd::arithmetic::div_mod::lemma_fundamental_div_mod_converse(side * mp + mp / 2, mp, side, mp / 2);
    assert(geometry_side(fp_span(locs), mp) == side);
}

/// Decoding a rendered symbol: where no module-aligned window of the image
/// of the symbol that encodes `data` other than the corners reads as a
/// finder pattern, the grid located in the image is the one the symbol was
/// drawn on, and sampling the image on it reads back the payload length
/// modulo 2^16 and a codeword that passes every parity check and begins
/// with the payload.
pub proof fn lemma_image_round_trip(data: Seq<u8>, cfg: JabConfig)
    requires
        encode_fits(data, cfg),
        cfg.module_size >= 1,
        only_corners_match(symbol_scan(data, cfg), encode_side(data, cfg)),
    ensures ({
        let img = symbol_image(data, cfg);
        let w = symbol_scan(data, cfg).w;
        let palette = palette_spec(cfg.colors.spec_count() as int);
        let k = (8 * data.len()) as int;
        let n = codeword_len(k, cfg.ecc);
        locate_spec(img, w, w, cfg) matches Ok(geo) && {
            let received = received_bytes(
                data_cells(sample_fn(img, w, geo, palette), geo.side as int, ap_positions_spec(geo.side as int), geo.side * geo.side),
                n,
                cfg.colors.spec_bpm() as int,
            );
            &&& value_of_bits(|i: int| len_bit(img, w, geo, palette, i), 0, 16) == data.len() % 0x10000
            &&& checks_hold(unpack_bytes(received), k, n - k)
            &&& received.take(data.len() as int) == data
        }
    }),
{
    lemma_detect_render(data, cfg);
    lemma_render_round_trip(data, cfg);
    let bpm = cfg.colors.spec_bpm() as int;
    lemma_symbol_side(encode_modules(data, cfg).len() * bpm, bpm);
    let side = encode_side(data, cfg);
    assert(side + 20 <= usize::MAX) by (nonlinear_arith)
        requires (side + 20) * (side + 20) * 16 <= usize::MAX, side >= 21;
    assert(side as usize as int == side);
}

/// Collect the data modules of a matrix, row by row, skipping reserved cells.
pub fn data_modules(mat: &JabMatrix) -> (out: Vec<u8>)
    requires
        mat.side >= 7,
        mat.side * mat.side <= usize::MAX,
        mat.side * mat.side <= mat.modules@.len(),
    ensures
        out@ == data_cells(cell_fn(mat.modules@), mat.side as int, ap_positions_spec(mat.side as int), mat.side * mat.side),
{
    let side = mat.side;
    let ghost f = cell_fn(mat.modules@);
    let ghost sd = side as int;
    proof {
        assert(side + 20 <= usize::MAX) by (nonlinear_arith)
            requires side * side <= usize::MAX, side >= 7;
    }
    let ap_pos = pattern::alignment_positions(side);
    let mut out: Vec<u8> = Vec::new();
    let mut r: usize = 0;
    while r < side
        invariant
            side == mat.side,
            sd == side,
            side >= 7,
            side * side <= usize::MAX,
            side * side <= mat.modules@.len(),
            f == cell_fn(mat.modules@),
            ap_pos@ == ap_positions_spec(side as int),
            r <= side,
            out@ == data_cells(f, sd, ap_pos@, r * sd),
        decreases side - r,
    {
        let mut c: usize = 0;
        while c < side
            invariant
                side == mat.side,
                sd == side,
                side >= 7,
                side * side <= usize::MAX,
                side * side <= mat.modules@.len(),
                f == cell_fn(mat.modules@),
                ap_pos@ == ap_positions_spec(side as int),
                r < side,
                c <= side,
                out@ == data_cells(f, sd, ap_pos@, r * sd + c),
            decreases side - c,
        {
            let ghost k = r * sd + c;
            proof {
                vstd::arithmetic::div_mod::lemma_fundamental_div_mod_converse(k, sd, r as int, c as int);
                assert(k < side * side) by (nonlinear_arith)
                    requires k == r * sd + c, r < side, c < side, sd == side;
            }
            if !pattern::is_reserved(r, c, side, ap_pos.as_slice()) {
                out.push(mat.get(r, c));
            }
            proof {
                assert(out@ =~= data_cells(f, sd, ap_pos@, k + 1));
            }
            c += 1;
        }
        proof {
            assert(r * sd + sd == (r + 1) * sd) by (nonlinear_arith);
        }
        r += 1;
    }
    out
}

/// The first `n` modules of `all`, or all of them if there are fewer.
fn prefix_modules(all: &Vec<u8>, n: usize) -> (out: Vec<u8>)
    ensures
        out@ == take_modules(all@, n as int),
{
    let end = if n <= all.len() { n } else { all.len() };
    let mut out: Vec<u8> = Vec::new();
    let mut i: usize = 0;
    while i < end
        invariant
            end <= all@.len(),
            end == if n <= all@.len() { n as int } else { all@.len() as int },
            i <= end,
            out@ == all@.take(i as int),
        decreases end - i,
    {
        out.push(all[i]);
        proof {
            assert(all@.take(i + 1) =~= all@.take(i as int).push(all@[i as int]));
        }
        i += 1;
    }
    proof {
        if n > all@.len() {
            assert(all@.take(end as int) =~= all@);
        }
    }
    out
}

/// The payload length stored in a matrix.
pub open spec fn matrix_data_len(mat: JabMatrix) -> nat {
    value_of_bits(low_bit_fn(mat.modules@), mat.side + 8, 16)
}

/// Read a matrix (no image detection needed) into a decode job: the stored
/// payload length, the codec the encoder used for it, and the codeword bytes
/// spelled by the first data modules, in the encoder's fill order.
pub fn matrix_decode_job(mat: &JabMatrix, cfg: &JabConfig) -> (job: DecodeJob)
    requires
        mat.side >= 7,
        mat.side * mat.side <= usize::MAX,
        mat.side * mat.side <= mat.modules@.len(),
    ensures
        job.data_len == matrix_data_len(*mat),
        job.codec.wf(),
        job.codec.spec_k() == 8 * job.data_len,
        job.codec.spec_n() == codeword_len(8 * job.data_len, cfg.ecc),
        job.received@ == received_bytes(
            data_cells(cell_fn(mat.modules@), mat.side as int, ap_positions_spec(mat.side as int), mat.side * mat.side),
            job.codec.spec_n() as int,
            cfg.colors.spec_bpm() as int,
        ),
{
    let bpm = cfg.colors.bits_per_module();
    let side = mat.side;
    proof {
        assert(side + 24 <= side * side) by (nonlinear_arith)
            requires side >= 7;
    }

    // Payload byte count from the metadata strip.
    let data_byte_count = pattern::read_data_len(mat.modules.as_slice(), side);
    proof {
        lemma_small_payload_fits(data_byte_count as int, *cfg);
    }

    // The codec with the same parameters as the encoder.
    let data_bits = data_byte_count * 8;
    let codec = LdpcCodec::new(data_bits, cfg.ecc);

    // Exactly as many modules as hold the codeword.
    let n_bits = codec.code_bits();
    let needed = (n_bits + bpm as usize - 1) / bpm as usize;

    let all_modules = data_modules(mat);
    let modules = prefix_modules(&all_modules, needed);
    proof {
        assert(modules@.len() <= needed);
        assert(modules@.len() * bpm <= needed * bpm) by (nonlinear_arith)
            requires modules@.len() <= needed;
        assert(needed * bpm <= n_bits + bpm) by (nonlinear_arith)
            requires needed == (n_bits + bpm - 1) / (bpm as int), bpm >= 1;
    }
    let received = modules_to_bits(modules.as_slice(), bpm);
    DecodeJob { codec, received, data_len: data_byte_count }
}

/// The geometry located in an image: the module grid spanned by the four
/// finder patterns found (or why there is none).
pub open spec fn locate_spec(rgba: Seq<u8>, width: int, height: int, cfg: JabConfig) -> Result<GridGeometry, JabError> {
    let inp = ScanInput { rgba, w: width, h: height, palette: palette_spec(cfg.colors.spec_count() as int), mpx: cfg.module_size as int };
    match detect_spec(inp) {
        None => Err(JabError::PatternNotFound),
        Some(locs) => {
            let side = geometry_side(fp_span(locs), cfg.module_size as int);
            if side < 21 {
                Err(JabError::InvalidMatrix(side as u32, side as u32))
            } else {
                Ok(GridGeometry {
                    origin_row_px: min4(locs[0].row_px, locs[1].row_px, locs[2].row_px, locs[3].row_px),
                    origin_col_px: min4(locs[0].col_px, locs[1].col_px, locs[2].col_px, locs[3].col_px),
                    side: side as usize,
                    module_px: cfg.module_size,
                })
            }
        },
    }
}

/// Find the four finder patterns of an RGBA image and from them the module
/// grid; a grid of fewer than 21 modules per side is refused.
pub fn locate_grid(rgba: &[u8], width: u32, height: u32, cfg: &JabConfig) -> (r: Result<GridGeometry, JabError>)
    requires
        image_ok(rgba@, width as int, height as int),
        cfg.module_size >= 1,
        width + 7 * cfg.module_size <= u32::MAX,
        height + 7 * cfg.module_size <= u32::MAX,
    ensures
        r == locate_spec(rgba@, width as int, height as int, *cfg),
{
    let palette = build_palette(cfg.colors);
    let mod_px = cfg.module_size;
    proof {
        crate::color::lemma_palette_len(cfg.colors);
        lemma_detect_in_image(ScanInput { rgba: rgba@, w: width as int, h: height as int, palette: palette@, mpx: mod_px as int });
    }

    // The finder patterns.
    let fps = match detect_fps(rgba, width, height, palette.as_slice(), mod_px) {
        Some(f) => f,
        None => {
            return Err(JabError::PatternNotFound);
        },
    };

    // The grid geometry.
    proof {
        assert(fp_span(fps@) + 7 * mod_px <= height || fp_span(fps@) + 7 * mod_px <= width);
    }
    let geo = compute_geometry(&fps, mod_px);
    if geo.side < 21 {
        return Err(JabError::InvalidMatrix(geo.side as u32, geo.side as u32));
    }
    Ok(geo)
}

/// Whether the pixel coordinates of every module center of `geo` fit, so
/// that the grid can be sampled from an image `width` pixels wide.
pub fn grid_fits(geo: &GridGeometry, width: u32) -> (ok: bool)
    ensures
        ok == (geometry_fits(*geo, width as int) && geo.side * geo.side <= usize::MAX),
{
    let side = geo.side as u128;
    let m = geo.module_px as u128;
    proof {
        assert(side * side <= 0xffff_ffff_ffff_ffff * 0xffff_ffff_ffff_ffffu128) by (nonlinear_arith)
            requires side <= 0xffff_ffff_ffff_ffff;
        assert(side * m <= 0xffff_ffff_ffff_ffff * 0xffff_ffffu128) by (nonlinear_arith)
            requires side <= 0xffff_ffff_ffff_ffff, m <= 0xffff_ffff;
        assert(side >= 1 ==> (side - 1) * m <= side * m) by (nonlinear_arith);
    }
    let e: u128 = if side == 0 { 0 } else { (side - 1) * m + m / 2 };
    let row_end = geo.origin_row_px as u128 + e;
    let col_end = geo.origin_col_px as u128 + e;
    if row_end > 0xffff_ffff || col_end > 0xffff_ffff {
        return false;
    }
    proof {
        assert(row_end * (width as u128) <= 0xffff_ffffu128 * 0xffff_ffffu128) by (nonlinear_arith)
            requires row_end <= 0xffff_ffff, width <= 0xffff_ffff;
    }
    let last = row_end * (width as u128) + col_end;
    if last > 0xffff_ffff {
        return false;
    }
    let bytes = last * 4 + 2;
    if bytes > usize::MAX as u128 {
        return false;
    }
    side * side <= usize::MAX as u128
}

/// Read an image, on the located grid, into a decode job: the payload length
/// from the metadata strip, the sampled data modules (as many as the codeword
/// needs) and the codeword bytes they spell.
pub fn image_decode_job(rgba: &[u8], width: u32, geo: &GridGeometry, cfg: &JabConfig) -> (job: ImageDecodeJob)
    requires
        geo.side >= 7,
        geometry_fits(*geo, width as int),
        geo.side * geo.side <= usize::MAX,
    ensures
        job.palette@ == palette_spec(cfg.colors.spec_count() as int),
        job.bpm == cfg.colors.spec_bpm(),
        job.job.data_len == value_of_bits(|i: int| len_bit(rgba@, width as int, *geo, job.palette@, i), 0, 16),
        job.job.codec.wf(),
        job.job.codec.spec_k() == 8 * job.job.data_len,
        job.job.codec.spec_n() == codeword_len(8 * job.job.data_len, cfg.ecc),
        job.modules@ == take_modules(
            data_cells(sample_fn(rgba@, width as int, *geo, job.palette@), geo.side as int, ap_positions_spec(geo.side as int), geo.side * geo.side),
            needed_modules(job.job.codec.spec_n() as int, job.bpm as int),
        ),
        job.job.received@ == pack_bits(module_stream_bits(job.modules@, job.bpm as int)),
{
    let palette = build_palette(cfg.colors);
    let bpm = cfg.colors.bits_per_module();

    // The payload length from the metadata strip.
    let data_byte_count = read_data_len_from_image(rgba, width, geo, palette.as_slice());
    proof {
        lemma_small_payload_fits(data_byte_count as int, *cfg);
    }

    // All data modules.
    let all_modules = sample_modules(rgba, width, geo, palette.as_slice());

    // The codec with the same parameters as the encoder.
    let data_bits = data_byte_count * 8;
    let codec = LdpcCodec::new(data_bits, cfg.ecc);

    // Exactly as many modules as hold the codeword.
    let n_bits = codec.code_bits();
    let needed = (n_bits + bpm as usize - 1) / bpm as usize;
    let modules = prefix_modules(&all_modules, needed);
    proof {
        assert(modules@.len() * bpm <= needed * bpm) by (nonlinear_arith)
            requires modules@.len() <= needed;
        assert(needed * bpm <= n_bits + bpm) by (nonlinear_arith)
            requires needed == (n_bits + bpm - 1) / (bpm as int), bpm >= 1;
    }

    // Modules to codeword bytes.
    let received = modules_to_bits(modules.as_slice(), bpm);
    ImageDecodeJob { job: DecodeJob { codec, received, data_len: data_byte_count }, modules, palette, bpm }
}

/// The decoded data cut to the payload length.
pub fn take_payload(data: &[u8], data_len: usize) -> (out: Vec<u8>)
    ensures
        out@ == data@.take(if data_len <= data@.len() { data_len as int } else { data@.len() as int }),
{
    let end = if data_len <= data.len() { data_len } else { data.len() };
    let mut out: Vec<u8> = Vec::new();
    let mut i: usize = 0;
    while i < end
        invariant
            end <= data@.len(),
            i <= end,
            out@ == data@.take(i as int),
        decreases end - i,
    {
        out.push(data[i]);
        proof {
            assert(data@.take(i + 1) =~= data@.take(i as int).push(data@[i as int]));
        }
        i += 1;
    }
    out
}

} // verus!
