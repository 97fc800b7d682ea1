pub mod capacity;
pub mod ldpc;
pub mod matrix;
pub mod pattern;

use vstd::prelude::*;
use crate::bits::{BitBuf, bits_value, unpack_bytes};
use crate::color::{Rgb, build_palette, palette_spec};
use crate::config::JabConfig;
use crate::error::JabError;
use ldpc::{LdpcCodec, codeword_len, codeword_spec, h_fits};
use matrix::{JabMatrix, build_matrix, render_rgba, matrix_side, matrix_spec, render_spec, side_arith_ok, side_fits,
    usable_spec, reserved_estimate, required_side_spec, lemma_required_side, lemma_side_arith_monotone,
    symbol_side, lemma_symbol_side, META_SIDE};
use pattern::ap_count;

verus! {

/// Output of a complete encode operation.
pub struct EncodedJab {
    /// One or more symbol matrices (master + slaves).
    pub symbols: Vec<JabMatrix>,
    /// RGBA pixel render of all symbols tiled horizontally.
    pub rgba: Vec<u8>,
    /// Image width in pixels.
    pub img_width: u32,
    /// Image height in pixels.
    pub img_height: u32,
    /// The palette used.
    pub palette: Vec<Rgb>,
    /// Payload length in bytes.
    pub data_len: usize,
}

/// Number of zero bits that pad `len` bits to a multiple of `bpm`.
pub open spec fn pad_len(len: int, bpm: int) -> int {
    (bpm - len % bpm) % bpm
}

/// The module values of a bit stream: consecutive groups of `bpm` bits, each
/// read as a number.
pub open spec fn modules_of(bits: Seq<bool>, bpm: int) -> Seq<u8> {
    Seq::new((bits.len() as int / bpm) as nat, |i: int| bits_value(bits, i * bpm, bpm as nat) as u8)
}

/// The codeword that encodes `data` under `cfg`: the data bytes followed by
/// their LDPC parity.
pub open spec fn encode_codeword(data: Seq<u8>, cfg: JabConfig) -> Seq<u8> {
    let k = (8 * data.len()) as int;
    codeword_spec(data, k, codeword_len(k, cfg.ecc) - k)
}

/// The bit stream of the codeword for `data`, padded with zeros to whole modules.
pub open spec fn encode_stream(data: Seq<u8>, cfg: JabConfig) -> Seq<bool> {
    let bits = unpack_bytes(encode_codeword(data, cfg));
    let bpm = cfg.colors.spec_bpm() as int;
    bits + Seq::new(pad_len(bits.len() as int, bpm) as nat, |i: int| false)
}

/// The module values (color indices) that encode `data` under `cfg`.
pub open spec fn encode_modules(data: Seq<u8>, cfg: JabConfig) -> Seq<u8> {
    modules_of(encode_stream(data, cfg), cfg.colors.spec_bpm() as int)
}

/// The side of the symbol that encodes `data` under `cfg`.
pub open spec fn encode_side(data: Seq<u8>, cfg: JabConfig) -> int {
    matrix_side(cfg, encode_modules(data, cfg).len() as int)
}

/// All sizes involved in encoding `len` bytes under `cfg` fit the machine
/// and the 32-bit indices of the parity check matrix.
pub open spec fn encode_fits(data: Seq<u8>, cfg: JabConfig) -> bool {
    let k = (8 * data.len()) as int;
    let n = codeword_len(k, cfg.ecc);
    let side = encode_side(data, cfg);
    let sp = side * cfg.module_size;
    &&& k * 4 + 2 <= usize::MAX
    &&& n + 7 <= usize::MAX
    &&& h_fits(k, n - k)
    &&& 8 * encode_codeword(data, cfg).len() + 64 <= usize::MAX
    &&& side_arith_ok(side, cfg.colors.spec_bpm() as int)
    &&& sp <= u32::MAX
    &&& sp * sp * 4 <= usize::MAX
}

/// The modules of an encoding of `len` bytes: the length of the codeword in
/// bytes and of the module stream in modules.
proof fn lemma_encode_lengths(data: Seq<u8>, cfg: JabConfig)
    ensures ({
        let k = (8 * data.len()) as int;
        let m = codeword_len(k, cfg.ecc) - k;
        let bpm = cfg.colors.spec_bpm() as int;
        let l = (8 * encode_codeword(data, cfg).len()) as int;
        &&& m >= 0 ==> encode_codeword(data, cfg).len() == data.len() + (m + 7) / 8
        &&& encode_stream(data, cfg).len() == l + pad_len(l, bpm)
        &&& encode_modules(data, cfg).len() == encode_stream(data, cfg).len() as int / bpm
    }),
{
    let k = (8 * data.len()) as int;
    let (num, den) = cfg.ecc.spec_rate();
    let n = codeword_len(k, cfg.ecc);
    let bpm = cfg.colors.spec_bpm() as int;
    let l = (8 * encode_codeword(data, cfg).len()) as int;
    assert(0 <= pad_len(l, bpm) < bpm);
}

/// Whether `data` can be encoded under `cfg` on this machine: every size
/// the encoder computes fits its integer types (see `encode_fits`).
pub fn encodable(data: &[u8], cfg: &JabConfig) -> (ok: bool)
    ensures
        ok == encode_fits(data@, *cfg),
{
    let ghost d = data@;
    let ghost c = *cfg;
    proof {
        lemma_encode_lengths(d, c);
    }
    let max = usize::MAX as u128;
    let (num, den) = cfg.ecc.rate();
    let bpm = cfg.colors.bits_per_module() as u128;
    let k = data.len() as u128 * 8;
    if k * 4 + 2 > max {
        return false;
    }
    proof {
        assert(k * den <= k * 4) by (nonlinear_arith)
            requires den <= 4;
    }
    let n = (k * (den as u128) + (num as u128) - 1) / (num as u128);
    proof {
        assert(n >= k) by (nonlinear_arith)
            requires n == (k * den + num - 1) / (num as int), 1 <= num <= 3, den >= 2, 3 * den >= 4 * num, k >= 0;
        assert(n <= k * 4 + 2) by (nonlinear_arith)
            requires n == (k * den + num - 1) / (num as int), 1 <= num <= 3, den <= 4, k >= 0;
    }
    if n + 7 > max {
        return false;
    }
    let m = n - k;
    let u32max = u32::MAX as u128;
    if k + m > u32max || 2 * m > u32max || 6 * m + k > max || k * 11 + 5 > max || 7 * m + 2 * k > u32max {
        return false;
    }
    let cw_len = data.len() as u128 + (m + 7) / 8;
    if 8 * cw_len + 64 > max {
        return false;
    }
    let l = 8 * cw_len;
    let pad = (bpm - l % bpm) % bpm;
    let nm = (l + pad) / bpm;
    proof {
        assert(nm * bpm <= l + pad) by (nonlinear_arith)
            requires nm == (l + pad) as int / (bpm as int), bpm >= 2;
    }
    let bits = nm * bpm;
    proof {
        assert(encode_modules(d, c).len() == nm);
        lemma_required_side(bits as int, bpm as int);
        lemma_symbol_side(bits as int, bpm as int);
    }
    let ghost target = required_side_spec(bits as int, bpm as int);
    let mut side: u128 = 21;
    loop
        invariant
            21 <= side <= target,
            (side - 21) % 4 == 0,
            target == required_side_spec(bits as int, bpm as int),
            side_fits(target, bits as int, bpm as int),
            forall|t: int| 21 <= t < target && (t - 21) % 4 == 0 ==> !side_fits(t, bits as int, bpm as int),
            2 <= bpm <= 8,
            bits <= max,
            max == usize::MAX,
            side <= 0x1_0000_0000,
            symbol_side(bits as int, bpm as int) == encode_side(d, c),
            symbol_side(bits as int, bpm as int) >= target,
            (target - 21) % 4 == 0,
            d == data@,
            c == *cfg,
            bpm == cfg.colors.spec_bpm(),
        ensures
            side == target,
            side_arith_ok(side as int, bpm as int),
        decreases 0x1_0000_0000_0000_0000u128 - side,
    {
        proof {
            assert((side + 20) * (side + 20) * 16 <= 0x1_0000_0020u128 * 0x1_0000_0020u128 * 16) by (nonlinear_arith)
                requires side <= 0x1_0000_0000;
            assert(side * side <= 0x1_0000_0000u128 * 0x1_0000_0000u128) by (nonlinear_arith)
                requires side <= 0x1_0000_0000;
            assert(side * side * bpm <= 0x1_0000_0000u128 * 0x1_0000_0000u128 * 8) by (nonlinear_arith)
                requires side <= 0x1_0000_0000, bpm <= 8;
        }
        if (side + 20) * (side + 20) * 16 > max || side * side * bpm > max {
            proof {
                assert(!side_arith_ok(side as int, bpm as int));
                lemma_side_arith_monotone(side as int, encode_side(d, c), bpm as int);
                assert(!encode_fits(d, c));
            }
            return false;
        }
        let sq = side * side;
        let apc: u128 = if side <= 21 { 0 } else { (side - 21) / 20 + 1 };
        let meta: u128 = if side >= 14 { side - 14 } else { 0 };
        proof {
            assert(apc == ap_count(side as int));
            assert(apc <= side);
            assert(apc * apc <= side * side) by (nonlinear_arith)
                requires apc <= side;
        }
        let reserved = 196 + apc * apc * 9 + 2 * meta;
        let usable = if sq >= reserved { sq - reserved } else { 0 };
        proof {
            assert(reserved == reserved_estimate(side as int));
            assert(usable == usable_spec(side as int));
            assert(usable * bpm <= sq * bpm) by (nonlinear_arith)
                requires usable <= sq, bpm >= 0;
        }
        if usable * bpm >= bits {
            proof {
                assert(side_fits(side as int, bits as int, bpm as int));
                assert(side == target);
            }
            break;
        }
        proof {
            assert(side != target);
            assert(side + 20 <= 0x4000_0000) by (nonlinear_arith)
                requires (side + 20) * (side + 20) * 16 <= 0xffff_ffff_ffff_ffffu128, side >= 0;
        }
        side = side + 4;
    }
    proof {
        lemma_symbol_side(bits as int, bpm as int);
    }
    let side: u128 = if side < META_SIDE as u128 { META_SIDE as u128 } else { side };
    proof {
        assert(side == encode_side(d, c));
        assert(side_arith_ok(side as int, bpm as int));
    }
    let mpx = cfg.module_size as u128;
    proof {
        assert(side * mpx <= 0x1_0000_0000_0000_0000u128 * 0xffff_ffffu128) by (nonlinear_arith)
            requires side <= 0x1_0000_0000_0000_0000u128, mpx <= 0xffff_ffff;
    }
    let sp = side * mpx;
    if sp > u32max {
        return false;
    }
    proof {
        assert(sp * sp <= 0xffff_ffffu128 * 0xffff_ffffu128) by (nonlinear_arith)
            requires sp <= 0xffff_ffff;
    }
    sp * sp * 4 <= max
}

/// Encode arbitrary bytes into a JAB code symbol: LDPC-encode the bytes,
/// cut the bit stream into modules, lay them out in a symbol and render it.
#[verifier::rlimit(40)]
pub fn encode(data: &[u8], cfg: &JabConfig) -> (r: Result<EncodedJab, JabError>)
    requires
        encode_fits(data@, *cfg),
    ensures
        r is Ok,
        r matches Ok(out) ==> {
            let side = encode_side(data@, *cfg);
            &&& out.symbols@.len() == 1
            &&& out.symbols@[0].side == side
            &&& out.symbols@[0].bpm == cfg.colors.spec_bpm()
            &&& out.symbols@[0].modules@ == matrix_spec(side, cfg.colors.spec_count() as usize, encode_modules(data@, *cfg), data@.len() as usize)
            &&& out.rgba@ == render_spec(out.symbols@[0].modules@, side, cfg.module_size as int, palette_spec(cfg.colors.spec_count() as int))
            &&& out.img_width == side * cfg.module_size
            &&& out.img_height == side * cfg.module_size
            &&& out.palette@ == palette_spec(cfg.colors.spec_count() as int)
            &&& out.data_len == data@.len()
        },
{
    let palette = build_palette(cfg.colors);
    let bpm = cfg.colors.bits_per_module();

    let data_bits = data.len() * 8;
    let codec = LdpcCodec::new(data_bits, cfg.ecc);
    let encoded_bytes = codec.encode(data);
    let ghost cw = encoded_bytes@;
    proof {
        assert(cw == encode_codeword(data@, *cfg));
    }

    // Convert encoded bytes to the module stream, padded to whole modules.
    let mut enc_bits = BitBuf::from_bytes(encoded_bytes.as_slice());
    let ghost base = enc_bits@;
    let ghost base_len = base.len() as int;
    let ghost pad = pad_len(base_len, bpm as int);
    let ghost mut j: int = 0;
    proof {
        assert(0 <= pad < bpm);
        assert((base_len + pad) % (bpm as int) == 0) by (nonlinear_arith)
            requires pad == (bpm - base_len % (bpm as int)) % (bpm as int), bpm >= 2, base_len >= 0;
        assert(enc_bits@ =~= base + Seq::new(0, |i: int| false));
    }
    while enc_bits.len() % (bpm as usize) != 0
        invariant
            2 <= bpm <= 8,
            8 * cw.len() + 64 <= usize::MAX,
            base == unpack_bytes(cw),
            base_len == base.len(),
            base_len == 8 * cw.len(),
            pad == pad_len(base_len, bpm as int),
            0 <= pad < bpm,
            (base_len + pad) % (bpm as int) == 0,
            0 <= j <= pad,
            enc_bits.wf(),
            enc_bits@ == base + Seq::new(j as nat, |i: int| false),
        decreases pad - j,
    {
        proof {
            assert(enc_bits@.len() == enc_bits.spec_len());
            assert(enc_bits.spec_len() == base_len + j);
            assert(j < pad) by {
                if j == pad {
                    assert(enc_bits.spec_len() % (bpm as nat) == 0);
                }
            }
            assert(enc_bits.spec_len() / 64 <= enc_bits.words().len());
        }
        enc_bits.push_bits(0, 1);
        proof {
            assert(!crate::bits::u64_bit(0u64, 0)) by {
                crate::bits::lemma_zero_shifts();
            }
            assert(enc_bits@ =~= base + Seq::new((j + 1) as nat, |i: int| false));
            j = j + 1;
        }
    }
    proof {
        assert(j == pad) by {
            if j < pad {
                assert((base_len + j) % (bpm as int) != 0) by (nonlinear_arith)
                    requires (base_len + pad) % (bpm as int) == 0, 0 <= j < pad, pad < bpm, bpm >= 2, base_len >= 0;
            }
        }
        assert(enc_bits@ == encode_stream(data@, *cfg));
    }
    let modules = enc_bits.modules(bpm);
    proof {
        assert(modules@ =~= encode_modules(data@, *cfg));
        let nm = modules@.len();
        assert(nm * bpm <= enc_bits@.len()) by (nonlinear_arith)
            requires nm == enc_bits@.len() / (bpm as nat), bpm >= 1;
    }

    // Build the symbol matrix (stores the payload length in its metadata).
    let symbol = build_matrix(cfg, modules.as_slice(), data.len());

    // Render.
    let module_px = cfg.module_size;
    let rgba = render_rgba(&symbol, module_px, palette.as_slice());
    proof {
        assert(symbol.side == encode_side(data@, *cfg));
        if module_px > 0 {
            assert(symbol.side <= symbol.side * module_px) by (nonlinear_arith)
                requires module_px >= 1;
        }
    }
    let side32 = symbol.side as u32;
    proof {
        if module_px > 0 {
            assert(side32 == symbol.side);
        }
        assert(side32 * module_px == symbol.side * module_px) by (nonlinear_arith)
            requires module_px == 0 || side32 == symbol.side;
    }
    let img_width = side32 * module_px;
    let img_height = side32 * module_px;
    let symbols = vec![symbol];
    Ok(EncodedJab { symbols, rgba, img_width, img_height, palette, data_len: data.len() })
}

/// Encode multiple independent chunks, each into its own symbol.
pub fn encode_parallel(chunks: &[&[u8]], cfg: &JabConfig) -> (r: Result<Vec<EncodedJab>, JabError>)
    requires
        forall|i: int| 0 <= i < chunks@.len() ==> encode_fits(#[trigger] chunks@[i]@, *cfg),
    ensures
        r is Ok,
        r matches Ok(outs) ==> outs@.len() == chunks@.len() && forall|i: int| 0 <= i < outs@.len() ==> {
            let side = encode_side(chunks@[i]@, *cfg);
            &&& (#[trigger] outs@[i]).symbols@.len() == 1
            &&& outs@[i].symbols@[0].side == side
            &&& outs@[i].symbols@[0].modules@ == matrix_spec(side, cfg.colors.spec_count() as usize, encode_modules(chunks@[i]@, *cfg), chunks@[i]@.len() as usize)
            &&& outs@[i].symbols@[0].bpm == cfg.colors.spec_bpm()
            &&& outs@[i].rgba@ == render_spec(outs@[i].symbols@[0].modules@, side, cfg.module_size as int, palette_spec(cfg.colors.spec_count() as int))
            &&& outs@[i].img_width == side * cfg.module_size
            &&& outs@[i].img_height == side * cfg.module_size
            &&& outs@[i].palette@ == palette_spec(cfg.colors.spec_count() as int)
            &&& outs@[i].data_len == chunks@[i]@.len()
        },
{
    let mut outs: Vec<EncodedJab> = Vec::new();
    let mut i: usize = 0;
    while i < chunks.len()
        invariant
            i <= chunks@.len(),
            forall|q: int| 0 <= q < chunks@.len() ==> encode_fits(#[trigger] chunks@[q]@, *cfg),
            outs@.len() == i,
            forall|q: int| 0 <= q < i ==> {
                let side = encode_side(chunks@[q]@, *cfg);
                &&& (#[trigger] outs@[q]).symbols@.len() == 1
                &&& outs@[q].symbols@[0].side == side
                &&& outs@[q].symbols@[0].modules@ == matrix_spec(side, cfg.colors.spec_count() as usize, encode_modules(chunks@[q]@, *cfg), chunks@[q]@.len() as usize)
                &&& outs@[q].symbols@[0].bpm == cfg.colors.spec_bpm()
                &&& outs@[q].rgba@ == render_spec(outs@[q].symbols@[0].modules@, side, cfg.module_size as int, palette_spec(cfg.colors.spec_count() as int))
                &&& outs@[q].img_width == side * cfg.module_size
                &&& outs@[q].img_height == side * cfg.module_size
                &&& outs@[q].palette@ == palette_spec(cfg.colors.spec_count() as int)
                &&& outs@[q].data_len == chunks@[q]@.len()
            },
        decreases chunks.len() - i,
    {
        let chunk = chunks[i];
        match encode(chunk, cfg) {
            Ok(out) => outs.push(out),
            Err(e) => return Err(e),
        }
        i += 1;
    }
    Ok(outs)
}

/// Encode and return only the flat RGBA bytes with the image width and height.
pub fn encode_rgba(data: &[u8], cfg: &JabConfig) -> (r: Result<(Vec<u8>, u32, u32), JabError>)
    requires
        encode_fits(data@, *cfg),
    ensures
        r is Ok,
        r matches Ok((rgba, w, h)) ==> {
            let side = encode_side(data@, *cfg);
            &&& rgba@ == render_spec(
                matrix_spec(side, cfg.colors.spec_count() as usize, encode_modules(data@, *cfg), data@.len() as usize),
                side,
                cfg.module_size as int,
                palette_spec(cfg.colors.spec_count() as int),
            )
            &&& w == side * cfg.module_size
            &&& h == side * cfg.module_size
        },
{
    let out = encode(data, cfg)?;
    Ok((out.rgba, out.img_width, out.img_height))
}

} // verus!
