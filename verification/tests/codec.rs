use jabcode::decoder::{grid_fits, image_decode_job, locate_grid, matrix_decode_job, take_payload};
use jabcode::encoder::encodable;
use jabcode::encoder::ldpc::LdpcCodec;
use jabcode::{encode, encode_parallel, encode_rgba, ColorCount, EccLevel, JabConfig};

/// Encode, read the symbol matrix back, check the codeword and cut the payload.
fn round_trip(data: &[u8], colors: ColorCount, ecc: EccLevel) {
    let cfg = JabConfig::new(colors, ecc);
    let out = encode(data, &cfg).expect("encode");
    let job = matrix_decode_job(&out.symbols[0], &cfg);
    assert_eq!(job.data_len, data.len());
    assert!(job.codec.syndrome_ok(&job.received), "codeword read back fails a check");
    let recovered = take_payload(&job.received, job.data_len);
    assert_eq!(&recovered[..data.len()], data, "round-trip failed for {:?}/{:?}", colors, ecc);
}

#[test]
fn rt_small_8colors() {
    round_trip(b"hello JAB!", ColorCount::C8, EccLevel::Medium);
}

#[test]
fn rt_256colors() {
    round_trip(b"ultra high density 256 colors test", ColorCount::C256, EccLevel::Low);
}

#[test]
fn rt_large_payload() {
    let data: Vec<u8> = (0u8..=255).cycle().take(4096).collect();
    round_trip(&data, ColorCount::C256, EccLevel::Medium);
}

#[test]
fn rt_every_color_count_and_level() {
    let counts = [
        ColorCount::C4,
        ColorCount::C8,
        ColorCount::C16,
        ColorCount::C32,
        ColorCount::C64,
        ColorCount::C128,
        ColorCount::C256,
    ];
    let levels = [EccLevel::Low, EccLevel::Medium, EccLevel::High, EccLevel::Ultra];
    for &c in counts.iter() {
        for &e in levels.iter() {
            round_trip(b"every palette, every level", c, e);
        }
    }
}

#[test]
fn rt_empty_payload() {
    round_trip(b"", ColorCount::C8, EccLevel::Medium);
}

#[test]
fn encode_gives_rgba() {
    let cfg = JabConfig { colors: ColorCount::C8, ecc: EccLevel::Medium, module_size: 2, ..Default::default() };
    let (rgba, w, h) = encode_rgba(b"test", &cfg).unwrap();
    assert_eq!(rgba.len(), (w * h * 4) as usize);
    assert!(w > 0 && h > 0);
}

#[test]
fn encode_sizes() {
    let cfg = JabConfig { colors: ColorCount::C8, ecc: EccLevel::Medium, module_size: 2, ..Default::default() };
    let out = encode(b"test", &cfg).unwrap();
    assert_eq!(out.symbols.len(), 1);
    assert_eq!(out.symbols[0].side, 33);
    assert_eq!(out.symbols[0].bpm, 3);
    assert_eq!(out.symbols[0].modules.len(), 33 * 33);
    assert_eq!(out.img_width, 66);
    assert_eq!(out.img_height, 66);
    assert_eq!(out.data_len, 4);
    assert_eq!(out.palette.len(), 8);
    assert_eq!(out.rgba.len(), 66 * 66 * 4);
}

#[test]
fn capacity_grows_with_colors() {
    let cfg8 = JabConfig::new(ColorCount::C8, EccLevel::Medium);
    let cfg256 = JabConfig::new(ColorCount::C256, EccLevel::Medium);
    assert!(cfg256.capacity_bytes(50) > cfg8.capacity_bytes(50));
}

#[test]
fn parallel_encode() {
    let chunks: Vec<Vec<u8>> = (0..8).map(|i| format!("chunk {i} data payload").into_bytes()).collect();
    let refs: Vec<&[u8]> = chunks.iter().map(|c| c.as_slice()).collect();
    let cfg = JabConfig::default();
    let results = encode_parallel(&refs, &cfg).unwrap();
    assert_eq!(results.len(), 8);
    for (i, r) in results.iter().enumerate() {
        assert_eq!(r.data_len, chunks[i].len());
    }
}

#[test]
fn decode_from_rgba() {
    let data = b"Hello, JAB!";
    let cfg = JabConfig { colors: ColorCount::C8, ecc: EccLevel::Medium, module_size: 4, ..Default::default() };

    let (rgba, w, h) = encode_rgba(data, &cfg).expect("encode");
    let geo = locate_grid(&rgba, w, h, &cfg).expect("decode from rgba should work");
    assert!(grid_fits(&geo, w));
    let read = image_decode_job(&rgba, w, &geo, &cfg);
    assert_eq!(read.job.data_len, data.len());
    assert!(read.job.codec.syndrome_ok(&read.job.received));
    let recovered = take_payload(&read.job.received, read.job.data_len);
    assert_eq!(&recovered[..data.len()], &data[..]);
}

#[test]
fn image_geometry_of_a_render() {
    let cfg = JabConfig { colors: ColorCount::C8, ecc: EccLevel::Medium, module_size: 3, ..Default::default() };
    let (rgba, w, h) = encode_rgba(b"geometry", &cfg).unwrap();
    let geo = locate_grid(&rgba, w, h, &cfg).unwrap();
    assert_eq!(geo.origin_row_px, 0);
    assert_eq!(geo.origin_col_px, 0);
    assert_eq!(geo.module_px, 3);
    assert_eq!(geo.side * 3, w as usize);
}

#[test]
fn blank_image_has_no_pattern() {
    let cfg = JabConfig::default();
    let rgba = vec![128u8; 40 * 40 * 4];
    assert_eq!(locate_grid(&rgba, 40, 40, &cfg), Err(jabcode::JabError::PatternNotFound));
}

#[test]
fn ldpc_codeword_passes_checks() {
    let codec = LdpcCodec::new(80, EccLevel::Medium);
    assert_eq!(codec.data_bits(), 80);
    assert_eq!(codec.code_bits(), 160);
    let data: Vec<u8> = (1u8..=10).collect();
    let cw = codec.encode(&data);
    assert_eq!(cw.len(), 20);
    assert_eq!(&cw[..10], &data[..]);
    assert!(codec.syndrome_ok(&cw));
}

#[test]
fn ldpc_flipped_bit_fails_checks() {
    let codec = LdpcCodec::new(64, EccLevel::High);
    let data = b"syndrome".to_vec();
    let cw = codec.encode(&data);
    for bit in [0usize, 7, 33, 63, 64, 100, codec.code_bits() - 1] {
        let mut bad = cw.clone();
        bad[bit / 8] ^= 1 << (bit % 8);
        assert!(!codec.syndrome_ok(&bad), "flip of bit {bit} went unnoticed");
    }
}

#[test]
fn ldpc_encoding_is_linear() {
    let codec = LdpcCodec::new(72, EccLevel::Medium);
    let a = b"linearity".to_vec();
    let b: Vec<u8> = (0u8..9).map(|i| i.wrapping_mul(37).wrapping_add(5)).collect();
    let x: Vec<u8> = a.iter().zip(b.iter()).map(|(p, q)| p ^ q).collect();
    let ca = codec.encode(&a);
    let cb = codec.encode(&b);
    let cx = codec.encode(&x);
    let expected: Vec<u8> = ca.iter().zip(cb.iter()).map(|(p, q)| p ^ q).collect();
    assert_eq!(cx, expected);
    let zero = codec.encode(&vec![0u8; 9]);
    assert_eq!(zero.len(), ca.len());
    assert!(zero.iter().all(|&v| v == 0));
}

#[test]
fn ldpc_lengths_per_level() {
    assert_eq!(LdpcCodec::new(96, EccLevel::Low).code_bits(), 128);
    assert_eq!(LdpcCodec::new(96, EccLevel::High).code_bits(), 288);
    assert_eq!(LdpcCodec::new(96, EccLevel::Ultra).code_bits(), 384);
    assert_eq!(LdpcCodec::new(10, EccLevel::Low).code_bits(), 14);
    assert_eq!(LdpcCodec::new_from_n(14, EccLevel::Low).data_bits(), 10);
    assert_eq!(LdpcCodec::new_from_n(128, EccLevel::Low).data_bits(), 96);
    let c = LdpcCodec::new_from_n(288, EccLevel::High);
    assert_eq!(c.data_bits(), 96);
    assert_eq!(c.code_bits(), 288);
}

#[test]
fn take_payload_cuts() {
    assert_eq!(take_payload(&[1, 2, 3, 4], 2), vec![1, 2]);
    assert_eq!(take_payload(&[1, 2], 5), vec![1, 2]);
}

#[test]
fn encodable_sizes() {
    let cfg = JabConfig::default();
    assert!(encodable(b"test", &cfg));
    assert!(encodable(b"", &cfg));
    let huge_pixels = JabConfig { module_size: u32::MAX, ..Default::default() };
    assert!(!encodable(b"test", &huge_pixels));
    let big = vec![0u8; 100_000];
    assert!(encodable(&big, &JabConfig::new(ColorCount::C256, EccLevel::Low)));
}

#[test]
fn small_grid_is_refused() {
    let mut m = jabcode::encoder::matrix::JabMatrix::new(14, 3);
    jabcode::encoder::pattern::place_fp(&mut m.modules, 14, 0, 0, 0);
    jabcode::encoder::pattern::place_fp(&mut m.modules, 14, 0, 7, 1);
    jabcode::encoder::pattern::place_fp(&mut m.modules, 14, 7, 0, 2);
    jabcode::encoder::pattern::place_fp(&mut m.modules, 14, 7, 7, 3);
    let palette = jabcode::color::build_palette(ColorCount::C8);
    let img = jabcode::encoder::matrix::render_rgba(&m, 1, &palette);
    let cfg = JabConfig { module_size: 1, ..Default::default() };
    assert_eq!(locate_grid(&img, 14, 14, &cfg), Err(jabcode::JabError::InvalidMatrix(14, 14)));
}

#[test]
fn length_read_back_from_small_and_large_symbols() {
    let cfg = JabConfig::new(ColorCount::C256, EccLevel::Low);
    let data = vec![7u8; 100];
    let out = encode(&data, &cfg).unwrap();
    assert_eq!(out.symbols[0].side, 33);
    let job = matrix_decode_job(&out.symbols[0], &cfg);
    assert_eq!(job.data_len, 100);
    let (rgba, w, h) = encode_rgba(&data, &cfg).unwrap();
    let geo = locate_grid(&rgba, w, h, &cfg).unwrap();
    let read = image_decode_job(&rgba, w, &geo, &cfg);
    assert_eq!(read.job.data_len, 100);
}
