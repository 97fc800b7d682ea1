use jabcode::color::{build_palette, nearest_color, Rgb};
use jabcode::config::{color_count, ecc_level};
use jabcode::decoder::detect::{compute_geometry, detect_fps, detect_module_px, FpLocation, GridGeometry};
use jabcode::decoder::sample::{modules_to_bits, read_data_len_from_image, sample_modules};
use jabcode::encoder::ldpc::{bits_to_bytes, get_bit, set_bit, SparseMat};
use jabcode::encoder::matrix::{build_matrix, render_rgba, required_side, JabMatrix};
use jabcode::encoder::pattern::{
    alignment_positions, fp_color, fp_palette_colors, is_reserved, place_ap, place_cpp, place_data_len, place_fp,
    read_cpp, read_data_len,
};
use jabcode::{ColorCount, EccLevel, JabConfig, JabError};

#[test]
fn color_count_parsing() {
    assert_eq!(ColorCount::from_u32(16), Ok(ColorCount::C16));
    assert_eq!(ColorCount::from_u32(5), Err(JabError::InvalidColorCount(5)));
    assert_eq!(ColorCount::from_u32(0), Err(JabError::InvalidColorCount(0)));
    assert_eq!(ColorCount::C4.bits_per_module(), 2);
    assert_eq!(ColorCount::C256.bits_per_module(), 8);
    assert_eq!(ColorCount::C128.count(), 128);
}

#[test]
fn foreign_codes() {
    assert_eq!(color_count(64), ColorCount::C64);
    assert_eq!(color_count(7), ColorCount::C8);
    assert_eq!(ecc_level(0), EccLevel::Low);
    assert_eq!(ecc_level(1), EccLevel::Medium);
    assert_eq!(ecc_level(2), EccLevel::High);
    assert_eq!(ecc_level(3), EccLevel::Ultra);
    assert_eq!(ecc_level(9), EccLevel::Medium);
}

#[test]
fn ecc_rates() {
    assert_eq!(EccLevel::Low.rate(), (3, 4));
    assert_eq!(EccLevel::Ultra.rate(), (1, 4));
    assert_eq!(EccLevel::Medium.encoded_len_bits(100), 200);
    assert_eq!(EccLevel::Low.encoded_len_bits(100), 133);
}

#[test]
fn config_defaults_and_capacity() {
    let d = JabConfig::default();
    assert_eq!(d.colors, ColorCount::C8);
    assert_eq!(d.ecc, EccLevel::Medium);
    assert_eq!(d.max_symbols, 0);
    assert_eq!(d.module_size, 4);
    assert!(!d.use_gpu);
    let cfg = JabConfig::new(ColorCount::C8, EccLevel::Medium);
    // 2125 usable modules, 3 bits each, rate 1/2, in bytes.
    assert_eq!(cfg.capacity_bytes(50), 398);
    assert_eq!(cfg.capacity_bytes(0), 0);
}

#[test]
fn palettes() {
    let p8 = build_palette(ColorCount::C8);
    assert_eq!(p8.len(), 8);
    assert_eq!(p8[0], Rgb(0, 0, 0));
    assert_eq!(p8[4], Rgb(255, 0, 0));
    assert_eq!(p8[7], Rgb(255, 255, 255));
    let p4 = build_palette(ColorCount::C4);
    assert_eq!(p4, vec![Rgb(0, 0, 0), Rgb(0, 255, 255), Rgb(255, 0, 255), Rgb(255, 255, 0)]);
    let p16 = build_palette(ColorCount::C16);
    assert_eq!(p16.len(), 16);
    assert_eq!(&p16[..8], &p8[..]);
    assert_eq!(p16[8], Rgb(0, 0, 127));
    for cc in [ColorCount::C32, ColorCount::C64, ColorCount::C128, ColorCount::C256] {
        let p = build_palette(cc);
        assert_eq!(p.len(), cc.count());
        for i in 0..p.len() {
            for j in 0..i {
                assert_ne!(p[i], p[j]);
            }
        }
    }
}

#[test]
fn nearest_colors() {
    let p = build_palette(ColorCount::C8);
    assert_eq!(nearest_color(&p, Rgb(250, 5, 5)), 4);
    assert_eq!(nearest_color(&p, Rgb(10, 10, 10)), 0);
    assert_eq!(nearest_color(&p, Rgb(0, 200, 210)), 1);
    for (i, c) in p.iter().enumerate() {
        assert_eq!(nearest_color(&p, *c) as usize, i);
    }
    assert_eq!(Rgb(1, 2, 3).distance_sq(Rgb(4, 6, 3)), 25);
    assert_eq!(Rgb(0, 0, 0).distance_sq(Rgb(255, 255, 255)), 195075);
}

#[test]
fn alignment_layout() {
    assert!(alignment_positions(21).is_empty());
    assert_eq!(alignment_positions(25), vec![(9, 9)]);
    assert_eq!(alignment_positions(41), vec![(9, 9), (9, 29), (29, 9), (29, 29)]);
    let aps = alignment_positions(45);
    assert!(is_reserved(0, 0, 45, &aps));
    assert!(is_reserved(44, 44, 45, &aps));
    assert!(is_reserved(1, 27, 45, &aps));
    assert!(!is_reserved(2, 27, 45, &aps));
    assert!(is_reserved(10, 10, 45, &aps));
    assert!(!is_reserved(12, 12, 45, &aps));
    assert!(!is_reserved(20, 20, 45, &aps));
}

#[test]
fn finder_colors() {
    // Layer 0 is the outermost ring, layer 3 the center.
    assert_eq!(fp_color(0, 0, 0), 0);
    assert_eq!(fp_color(0, 1, 3), 1);
    assert_eq!(fp_color(0, 2, 3), 2);
    assert_eq!(fp_color(0, 3, 3), 3);
    assert_eq!(fp_color(1, 3, 3), 1);
    assert_eq!(fp_color(1, 2, 3), 2);
    assert_eq!(fp_color(1, 1, 5), 3);
    assert_eq!(fp_color(2, 2, 4), 1);
    assert_eq!(fp_color(3, 3, 3), 2);
    assert_eq!(fp_color(3, 6, 0), 0);
    let mut m = vec![9u8; 21 * 21];
    place_fp(&mut m, 21, 0, 14, 1);
    assert_eq!(m[3 * 21 + 17], 1);
    assert_eq!(m[14], 0);
    assert_eq!(m[21 + 15], 3);
    assert_eq!(m[13], 9);
    place_ap(&mut m, 21, 9, 9);
    assert_eq!(m[10 * 21 + 10], 1);
    assert_eq!(m[9 * 21 + 9], 0);
    let p = build_palette(ColorCount::C8);
    assert_eq!(fp_palette_colors(&p), [p[0], p[1], p[2], p[3]]);
}

#[test]
fn metadata_round_trip() {
    let mut m = vec![0u8; 31 * 31];
    place_data_len(&mut m, 31, 1234);
    assert_eq!(read_data_len(&m, 31), 1234);
    place_data_len(&mut m, 31, 70000);
    assert_eq!(read_data_len(&m, 31), 70000 - 65536);
    place_cpp(&mut m, 31, 64);
    assert_eq!(read_cpp(&m, 31), 6);
    place_cpp(&mut m, 31, 4);
    assert_eq!(read_cpp(&m, 31), 2);
}

#[test]
fn length_field_has_sixteen_bits_at_every_width() {
    let mut m = vec![9u8; 21 * 21];
    place_data_len(&mut m, 21, 0xffff);
    assert_eq!(read_data_len(&m, 21), 0xffff);
    assert_eq!(m[44], 1);
    place_data_len(&mut m, 21, 100);
    assert_eq!(read_data_len(&m, 21), 100);
}

#[test]
fn symbol_sizes() {
    assert_eq!(required_side(0, 3), 21);
    assert_eq!(required_side(600, 3), 21);
    assert_eq!(required_side(700, 3), 25);
    let cfg = JabConfig::new(ColorCount::C8, EccLevel::Medium);
    let mods = vec![5u8; 40];
    let mat = build_matrix(&cfg, &mods, 15);
    // A built symbol is at least 33 modules wide, so that its length field
    // stays clear of the top-right finder pattern.
    assert_eq!(mat.side, 33);
    assert_eq!(mat.modules.len(), 33 * 33);
    let big = build_matrix(&cfg, &[5, 6, 7], 100);
    assert_eq!(big.side, 33);
    assert_eq!(read_data_len(&big.modules, big.side), 100);
    assert_eq!(read_data_len(&mat.modules, mat.side), 15);
    assert_eq!(read_cpp(&mat.modules, mat.side), 3);
    // The first data cell is (0, 7), between the finder pattern and the
    // metadata strip; cells past the last module stay 0.
    assert_eq!(mat.get(0, 7), 5);
    assert_eq!(mat.get(7, 0), 0);
}

#[test]
fn matrix_cells() {
    let mut m = JabMatrix::new(4, 2);
    assert_eq!(m.modules, vec![0u8; 16]);
    m.set(2, 3, 7);
    assert_eq!(m.get(2, 3), 7);
    assert_eq!(m.modules[11], 7);
}

#[test]
fn rendering() {
    let mut m = JabMatrix::new(2, 2);
    m.set(0, 1, 1);
    m.set(1, 0, 2);
    let p = vec![Rgb(0, 0, 0), Rgb(10, 20, 30), Rgb(40, 50, 60)];
    let img = render_rgba(&m, 2, &p);
    assert_eq!(img.len(), 4 * 4 * 4);
    assert_eq!(&img[0..4], &[0, 0, 0, 255]);
    assert_eq!(&img[8..12], &[10, 20, 30, 255]);
    assert_eq!(&img[(2 * 4) * 4..(2 * 4) * 4 + 4], &[40, 50, 60, 255]);
    assert_eq!(&img[(3 * 4 + 3) * 4..], &[0, 0, 0, 255]);
}

#[test]
fn detection_on_a_render() {
    let cfg = JabConfig { colors: ColorCount::C8, ecc: EccLevel::Medium, module_size: 2, ..Default::default() };
    let mods: Vec<u8> = (0..200u32).map(|i| (i % 8) as u8).collect();
    let mat = build_matrix(&cfg, &mods, 9);
    let p = build_palette(ColorCount::C8);
    let img = render_rgba(&mat, 2, &p);
    let w = (mat.side * 2) as u32;
    let fps = detect_fps(&img, w, w, &p, 2).expect("four finder patterns");
    let geo = compute_geometry(&fps, 2);
    assert_eq!(geo, GridGeometry { origin_row_px: 0, origin_col_px: 0, side: mat.side, module_px: 2 });
    assert_eq!(read_data_len_from_image(&img, w, &geo, &p), 9);
    let sampled = sample_modules(&img, w, &geo, &p);
    assert_eq!(&sampled[..200], &mods[..]);
    assert_eq!(detect_module_px(&img, w, w, &p, 1, 2), Some(2));
}

#[test]
fn detection_reports_the_four_corners_in_their_slots() {
    let cfg = JabConfig { colors: ColorCount::C4, ecc: EccLevel::Low, module_size: 3, ..Default::default() };
    let mods: Vec<u8> = (0..300u32).map(|i| ((i * 7 + 1) % 4) as u8).collect();
    let mat = build_matrix(&cfg, &mods, 40);
    let p = build_palette(ColorCount::C4);
    let img = render_rgba(&mat, 3, &p);
    let w = (mat.side * 3) as u32;
    let far = ((mat.side - 7) * 3) as u32;
    let fps = detect_fps(&img, w, w, &p, 3).expect("four finder patterns");
    assert_eq!(fps[0], FpLocation { fp_idx: 0, row_px: 0, col_px: 0 });
    assert_eq!(fps[1], FpLocation { fp_idx: 1, row_px: 0, col_px: far });
    assert_eq!(fps[2], FpLocation { fp_idx: 2, row_px: far, col_px: 0 });
    assert_eq!(fps[3], FpLocation { fp_idx: 3, row_px: far, col_px: far });
    let geo = jabcode::decoder::locate_grid(&img, w, w, &cfg).unwrap();
    assert_eq!(geo, GridGeometry { origin_row_px: 0, origin_col_px: 0, side: mat.side, module_px: 3 });
}

#[test]
fn geometry_from_locations() {
    let fps = [
        FpLocation { fp_idx: 0, row_px: 10, col_px: 10 },
        FpLocation { fp_idx: 1, row_px: 10, col_px: 66 },
        FpLocation { fp_idx: 2, row_px: 66, col_px: 10 },
        FpLocation { fp_idx: 3, row_px: 66, col_px: 66 },
    ];
    let geo = compute_geometry(&fps, 4);
    assert_eq!(geo.origin_row_px, 10);
    assert_eq!(geo.origin_col_px, 10);
    assert_eq!(geo.side, 21);
}

#[test]
fn modules_back_to_bytes() {
    assert_eq!(modules_to_bits(&[5, 3, 6], 3), vec![0b1001_1101, 0b1]);
    assert_eq!(modules_to_bits(&[0xff, 0x01], 8), vec![0xff, 0x01]);
}

#[test]
fn bit_helpers() {
    let mut buf = vec![0u8; 2];
    set_bit(&mut buf, 9, 1);
    assert_eq!(buf, vec![0, 2]);
    assert_eq!(get_bit(&buf, 9), 1);
    assert_eq!(get_bit(&buf, 8), 0);
    set_bit(&mut buf, 9, 0);
    assert_eq!(buf, vec![0, 0]);
    assert_eq!(bits_to_bytes(&[1, 0, 1, 1, 0, 0, 0, 0, 1], 9), vec![0b1101, 1]);
    assert_eq!(bits_to_bytes(&[1, 1, 1], 2), vec![0b11]);
}

#[test]
fn sparse_matrix_rows_and_columns() {
    let h = SparseMat::build(8, 8, 6);
    for r in 0..8usize {
        let cols = h.row_cols(r);
        assert_eq!(*cols.last().unwrap() as usize, 8 + r);
        for &c in cols {
            assert!(h.col_rows(c as usize).contains(&(r as u32)));
        }
    }
}

#[test]
fn sparse_matrix_shape() {
    let (k, m) = (16usize, 12usize);
    let h = SparseMat::build(k, m, 6);
    for r in 0..m {
        let cols = h.row_cols(r);
        assert!(cols.windows(2).all(|w| w[0] < w[1]));
        assert!(cols[..cols.len() - 1].iter().all(|&c| (c as usize) < k));
        assert_eq!(*cols.last().unwrap() as usize, k + r);
    }
    for c in 0..k + m {
        let rows = h.col_rows(c);
        assert!(rows.windows(2).all(|w| w[0] < w[1]));
        for r in 0..m {
            assert_eq!(h.row_cols(r).contains(&(c as u32)), rows.contains(&(r as u32)));
        }
    }
    for i in 0..m {
        assert_eq!(h.col_rows(k + i), &[i as u32][..]);
    }
}

#[test]
fn detection_on_a_side_21_symbol() {
    let mut m = JabMatrix::new(21, 2);
    place_fp(&mut m.modules, 21, 0, 0, 0);
    place_fp(&mut m.modules, 21, 0, 14, 1);
    place_fp(&mut m.modules, 21, 14, 0, 2);
    place_fp(&mut m.modules, 21, 14, 14, 3);
    let p = build_palette(ColorCount::C4);
    let img = render_rgba(&m, 2, &p);
    let fps = detect_fps(&img, 42, 42, &p, 2).expect("four finder patterns");
    assert_eq!(fps[0], FpLocation { fp_idx: 0, row_px: 0, col_px: 0 });
    assert_eq!(fps[1], FpLocation { fp_idx: 1, row_px: 0, col_px: 28 });
    assert_eq!(fps[2], FpLocation { fp_idx: 2, row_px: 28, col_px: 0 });
    assert_eq!(fps[3], FpLocation { fp_idx: 3, row_px: 28, col_px: 28 });
}

#[test]
fn any_built_symbol_reads_back_its_length() {
    let cfg = JabConfig { colors: ColorCount::C16, ecc: EccLevel::Low, module_size: 2, ..Default::default() };
    let mods: Vec<u8> = (0..500u32).map(|i| ((i * 5 + 3) % 16) as u8).collect();
    for len in [0usize, 1, 255, 65535, 70000] {
        let mat = build_matrix(&cfg, &mods, len);
        let p = build_palette(ColorCount::C16);
        let img = render_rgba(&mat, 2, &p);
        let w = (mat.side * 2) as u32;
        let geo = GridGeometry { origin_row_px: 0, origin_col_px: 0, side: mat.side, module_px: 2 };
        assert_eq!(read_data_len_from_image(&img, w, &geo, &p), len % 65536);
    }
}

#[test]
fn sampling_a_render_gives_the_data_modules() {
    let cfg = JabConfig { colors: ColorCount::C8, ecc: EccLevel::Medium, module_size: 3, ..Default::default() };
    let mods: Vec<u8> = (0..400u32).map(|i| ((i * 3 + 1) % 8) as u8).collect();
    let mat = build_matrix(&cfg, &mods, 50);
    let p = build_palette(ColorCount::C8);
    let img = render_rgba(&mat, 3, &p);
    let w = (mat.side * 3) as u32;
    let geo = GridGeometry { origin_row_px: 0, origin_col_px: 0, side: mat.side, module_px: 3 };
    assert_eq!(sample_modules(&img, w, &geo, &p), jabcode::decoder::data_modules(&mat));
}

#[test]
fn sparse_matrix_dimensions() {
    let h = SparseMat::build(20, 10, 6);
    assert_eq!(h.num_rows(), 10);
    assert_eq!(h.num_cols(), 30);
}

