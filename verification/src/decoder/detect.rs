use vstd::prelude::*;
use crate::color::{Rgb, nearest_color, nearest_spec};
use crate::decoder::sample::observed;
use crate::encoder::pattern::{FP_SIZE, fp_color, fp_color_spec};
use crate::encoder::matrix::{corner_row, corner_col};

verus! {

/// Detected finder pattern location in pixel space.
#[derive(Debug, Clone, Copy, PartialEq, Eq, Structural)]
pub struct FpLocation {
    /// Which of the four finder patterns (0-3).
    pub fp_idx: usize,
    /// Top pixel row.
    pub row_px: u32,
    /// Left pixel column.
    pub col_px: u32,
}

/// Module grid of a symbol in an image: its top-left pixel, its side in
/// modules and the module size in pixels.
#[derive(Debug, Clone, Copy, PartialEq, Eq, Structural)]
pub struct GridGeometry {
    /// Pixel row of the top-left module.
    pub origin_row_px: u32,
    /// Pixel column of the top-left module.
    pub origin_col_px: u32,
    /// Modules per side.
    pub side: usize,
    /// Pixels per module side.
    pub module_px: u32,
}

/// The smallest of four numbers.
pub open spec fn min4(a: u32, b: u32, c: u32, d: u32) -> u32 {
    let x = if a <= b { a } else { b };
    let y = if c <= d { c } else { d };
    if x <= y { x } else { y }
}

/// The largest of four numbers.
pub open spec fn max4(a: u32, b: u32, c: u32, d: u32) -> u32 {
    let x = if a >= b { a } else { b };
    let y = if c >= d { c } else { d };
    if x >= y { x } else { y }
}

/// Symbol side in modules spanned by finder patterns whose top-left corners
/// span `span` pixels: the span plus one pattern, rounded to whole modules.
pub open spec fn geometry_side(span: int, module_px: int) -> int {
    (span + 7 * module_px + module_px / 2) / module_px
}

/// Pixels between the extreme top-left corners of four finder patterns.
pub open spec fn fp_span(fps: Seq<FpLocation>) -> int {
    let max_r = max4(fps[0].row_px, fps[1].row_px, fps[2].row_px, fps[3].row_px);
    let max_c = max4(fps[0].col_px, fps[1].col_px, fps[2].col_px, fps[3].col_px);
    let hi = if max_r >= max_c { max_r } else { max_c };
    let lo_r = min4(fps[0].row_px, fps[1].row_px, fps[2].row_px, fps[3].row_px);
    let lo_c = min4(fps[0].col_px, fps[1].col_px, fps[2].col_px, fps[3].col_px);
    let lo = if lo_r <= lo_c { lo_r } else { lo_c };
    hi - lo
}

/// Given four finder pattern pixel locations, determine the module grid origin and size.
pub fn compute_geometry(fps: &[FpLocation; 4], module_px: u32) -> (g: GridGeometry)
    requires
        module_px > 0,
        fp_span(fps@) + 7 * module_px + module_px / 2 <= usize::MAX,
    ensures
        g.origin_row_px == min4(fps@[0].row_px, fps@[1].row_px, fps@[2].row_px, fps@[3].row_px),
        g.origin_col_px == min4(fps@[0].col_px, fps@[1].col_px, fps@[2].col_px, fps@[3].col_px),
        g.module_px == module_px,
        g.side == geometry_side(fp_span(fps@), module_px as int),
{
    let f0 = fps[0];
    let f1 = fps[1];
    let f2 = fps[2];
    let f3 = fps[3];
    let min_r = min_of4(f0.row_px, f1.row_px, f2.row_px, f3.row_px);
    let min_c = min_of4(f0.col_px, f1.col_px, f2.col_px, f3.col_px);
    let max_r = max_of4(f0.row_px, f1.row_px, f2.row_px, f3.row_px);
    let max_c = max_of4(f0.col_px, f1.col_px, f2.col_px, f3.col_px);

    // Distance between the extreme finder patterns gives the symbol side.
    let hi = if max_r >= max_c { max_r } else { max_c };
    let lo = if min_r <= min_c { min_r } else { min_c };
    let span = (hi - lo) as usize;
    let mpx = module_px as usize;
    proof {
        assert(span == fp_span(fps@));
    }
    let side_px = span + FP_SIZE * mpx;
    let side = (side_px + mpx / 2) / mpx;
    GridGeometry { origin_row_px: min_r, origin_col_px: min_c, side, module_px }
}

fn min_of4(a: u32, b: u32, c: u32, d: u32) -> (r: u32)
    ensures
        r == min4(a, b, c, d),
{
    let x = if a <= b { a } else { b };
    let y = if c <= d { c } else { d };
    if x <= y { x } else { y }
}

fn max_of4(a: u32, b: u32, c: u32, d: u32) -> (r: u32)
    ensures
        r == max4(a, b, c, d),
{
    let x = if a >= b { a } else { b };
    let y = if c >= d { c } else { d };
    if x >= y { x } else { y }
}


// ---------------------------------------------------------------------------
// Finder pattern search
// ---------------------------------------------------------------------------

/// The image holds `width × height` RGBA pixels and its pixel indices fit in 32 bits.
pub open spec fn image_ok(rgba: Seq<u8>, width: int, height: int) -> bool {
    &&& width * height <= u32::MAX
    &&& 4 * width * height <= rgba.len()
}

/// Byte index of the center pixel of module (mr, mc) of a candidate pattern
/// with top-left pixel (row_px, col_px).
pub open spec fn fp_sample_index(w: int, row_px: int, col_px: int, mpx: int, mr: int, mc: int) -> int {
    ((row_px + mr * mpx + mpx / 2) * w + col_px + mc * mpx + mpx / 2) * 4
}

/// Module `t` (row-major) of a candidate at (row_px, col_px) does not read as
/// the color finder pattern `fp` has there.
pub open spec fn fp_mismatch(rgba: Seq<u8>, w: int, row_px: int, col_px: int, mpx: int, palette: Seq<Rgb>, fp: int, t: int) -> bool {
    nearest_spec(palette, observed(rgba, fp_sample_index(w, row_px, col_px, mpx, t / 7, t % 7)))
        != fp_color_spec(fp, t / 7, t % 7)
}

/// Number of mismatching modules among the first `t`.
pub open spec fn fp_mismatches(rgba: Seq<u8>, w: int, row_px: int, col_px: int, mpx: int, palette: Seq<Rgb>, fp: int, t: int) -> nat
    decreases t,
{
    if t <= 0 {
        0
    } else {
        fp_mismatches(rgba, w, row_px, col_px, mpx, palette, fp, t - 1)
            + if fp_mismatch(rgba, w, row_px, col_px, mpx, palette, fp, t - 1) { 1nat } else { 0nat }
    }
}

/// The region at (row_px, col_px) shows finder pattern `fp` with at most
/// three mismatching modules.
pub open spec fn matches_fp_spec(rgba: Seq<u8>, w: int, row_px: int, col_px: int, mpx: int, palette: Seq<Rgb>, fp: int) -> bool {
    fp_mismatches(rgba, w, row_px, col_px, mpx, palette, fp, 49) <= 3
}

/// The centers of all seven module columns of a window at pixel column
/// `col_px` lie left of the right edge of an image `w` pixels wide.
pub open spec fn fp_fits_width(w: int, col_px: int, mpx: int) -> bool {
    col_px + 6 * mpx + mpx / 2 < w
}

proof fn lemma_fp_sample_in_image(rgba: Seq<u8>, w: int, h: int, row_px: int, col_px: int, mpx: int, mr: int, mc: int)
    requires
        image_ok(rgba, w, h),
        0 <= row_px,
        0 <= col_px,
        mpx >= 1,
        row_px + 7 * mpx <= h,
        col_px + mc * mpx + mpx / 2 < w,
        0 <= mr < 7,
        0 <= mc < 7,
    ensures
        0 <= col_px + mc * mpx + mpx / 2 < w,
        0 <= row_px + mr * mpx + mpx / 2 < h,
        0 <= (row_px + mr * mpx + mpx / 2) * w + col_px + mc * mpx + mpx / 2 < w * h,
        0 <= fp_sample_index(w, row_px, col_px, mpx, mr, mc) + 2 < rgba.len(),
{
    let x = col_px + mc * mpx + mpx / 2;
    let y = row_px + mr * mpx + mpx / 2;
    assert(mc * mpx + mpx / 2 < 7 * mpx && 0 <= mc * mpx) by (nonlinear_arith)
        requires 0 <= mc < 7, mpx >= 1;
    assert(mr * mpx + mpx / 2 < 7 * mpx && 0 <= mr * mpx) by (nonlinear_arith)
        requires 0 <= mr < 7, mpx >= 1;
    assert(0 <= y * w + x < w * h) by (nonlinear_arith)
        requires 0 <= y < h, 0 <= x < w;
    assert((y * w + x) * 4 + 2 < 4 * w * h) by (nonlinear_arith)
        requires 0 <= y * w + x < w * h;
}

/// Check whether the region at (row_px, col_px) matches finder pattern `fp_idx`.
fn matches_fp(
    rgba: &[u8],
    img_width: u32,
    img_height: u32,
    row_px: u32,
    col_px: u32,
    module_px: u32,
    palette: &[Rgb],
    fp_idx: usize,
) -> (m: bool)
    requires
        image_ok(rgba@, img_width as int, img_height as int),
        palette@.len() >= 4,
        fp_idx < 4,
        module_px >= 1,
        row_px + 7 * module_px <= img_height,
        col_px + 7 * module_px <= u32::MAX,
    ensures
        m == (fp_fits_width(img_width as int, col_px as int, module_px as int)
            && matches_fp_spec(rgba@, img_width as int, row_px as int, col_px as int, module_px as int, palette@, fp_idx as int)),
{
    let ghost w = img_width as int;
    let ghost h = img_height as int;
    let total = rgba.len();
    let mut mismatches: usize = 0;
    let mut mr: usize = 0;
    while mr < FP_SIZE
        invariant
            image_ok(rgba@, w, h),
            total == rgba@.len(),
            w == img_width,
            h == img_height,
            palette@.len() >= 4,
            fp_idx < 4,
            module_px >= 1,
            row_px + 7 * module_px <= img_height,
            col_px + 7 * module_px <= u32::MAX,
            mr <= 7,
            mr > 0 ==> fp_fits_width(w, col_px as int, module_px as int),
            mismatches == fp_mismatches(rgba@, w, row_px as int, col_px as int, module_px as int, palette@, fp_idx as int, 7 * mr),
            mismatches <= 3,
        decreases 7 - mr,
    {
        let mut mc: usize = 0;
        while mc < FP_SIZE
            invariant
                image_ok(rgba@, w, h),
                total == rgba@.len(),
                w == img_width,
                h == img_height,
                palette@.len() >= 4,
                fp_idx < 4,
                module_px >= 1,
                row_px + 7 * module_px <= img_height,
                col_px + 7 * module_px <= u32::MAX,
                mr < 7,
                mc <= 7,
                mr > 0 ==> fp_fits_width(w, col_px as int, module_px as int),
                mc > 0 ==> col_px + (mc - 1) * module_px + module_px / 2 < w,
                mismatches == fp_mismatches(rgba@, w, row_px as int, col_px as int, module_px as int, palette@, fp_idx as int, 7 * mr + mc),
                mismatches <= 3,
            decreases 7 - mc,
        {
            let expected_color = fp_color(fp_idx, mr, mc);
            let _expected_rgb = palette[expected_color as usize];
            proof {
                assert(mc * module_px + module_px / 2 < 7 * module_px) by (nonlinear_arith)
                    requires mc < 7, module_px >= 1;
            }
            // Sample the center pixel of the module; a window that runs past
            // the right edge is no match.
            let px = col_px + (mc as u32) * module_px + module_px / 2;
            if px >= img_width {
                proof {
                    assert(6 * module_px >= mc * module_px) by (nonlinear_arith)
                        requires mc <= 6;
                }
                return false;
            }
            proof {
                lemma_fp_sample_in_image(rgba@, w, h, row_px as int, col_px as int, module_px as int, mr as int, mc as int);
                let t = 7 * mr + mc;
                assert(t / 7 == mr && t % 7 == mc);
            }
            let py = row_px + (mr as u32) * module_px + module_px / 2;
            let idx = ((py * img_width + px) as usize) * 4;
            let obs = Rgb(rgba[idx], rgba[idx + 1], rgba[idx + 2]);
            let nearest = nearest_color(palette, obs);
            if nearest != expected_color {
                mismatches += 1;
                if mismatches > 3 {
                    proof {
                        lemma_mismatches_monotone(rgba@, w, row_px as int, col_px as int, module_px as int, palette@, fp_idx as int,
                            7 * mr + mc + 1, 49);
                    }
                    return false;
                }
            }
            mc += 1;
        }
        mr += 1;
    }
    true
}

proof fn lemma_mismatches_monotone(rgba: Seq<u8>, w: int, row_px: int, col_px: int, mpx: int, palette: Seq<Rgb>, fp: int, a: int, b: int)
    requires
        0 <= a <= b,
    ensures
        fp_mismatches(rgba, w, row_px, col_px, mpx, palette, fp, a) <= fp_mismatches(rgba, w, row_px, col_px, mpx, palette, fp, b),
    decreases b - a,
{
    if a < b {
        lemma_mismatches_monotone(rgba, w, row_px, col_px, mpx, palette, fp, a, b - 1);
    }
}

/// Number of scan positions `p = i · step` with `p + extent <= len`.
pub open spec fn scan_count(len: int, extent: int, step: int) -> int {
    if len >= extent { (len - extent) / step + 1 } else { 0 }
}

/// Absolute difference.
pub open spec fn abs_diff(a: int, b: int) -> int {
    if a >= b { a - b } else { b - a }
}

/// A pattern already found lies within one pattern side of (row, col) in
/// both directions.
pub open spec fn is_dup(found: Seq<FpLocation>, row: int, col: int, fp_side: int) -> bool {
    exists|i: int| 0 <= i < found.len()
        && abs_diff(#[trigger] found[i].row_px as int, row) < fp_side
        && abs_diff(found[i].col_px as int, col) < fp_side
}

/// Everything the search reads: the image, its size, the palette and the module size.
pub struct ScanInput {
    /// RGBA bytes.
    pub rgba: Seq<u8>,
    /// Width in pixels.
    pub w: int,
    /// Height in pixels.
    pub h: int,
    /// Palette colors.
    pub palette: Seq<Rgb>,
    /// Module size in pixels.
    pub mpx: int,
}

/// `found` after trying patterns 0..f at (row, col): a pattern that matches
/// and is no duplicate is recorded.
pub open spec fn scan_fps(inp: ScanInput, found: Seq<FpLocation>, row: int, col: int, f: int) -> Seq<FpLocation>
    decreases f,
{
    if f <= 0 {
        found
    } else {
        let s = scan_fps(inp, found, row, col, f - 1);
        if matches_fp_spec(inp.rgba, inp.w, row, col, inp.mpx, inp.palette, f - 1) && !is_dup(s, row, col, 7 * inp.mpx) {
            s.push(FpLocation { fp_idx: (f - 1) as usize, row_px: row as u32, col_px: col as u32 })
        } else {
            s
        }
    }
}

/// `found` after the first `j` candidate columns of pixel row `row`.
pub open spec fn scan_cols(inp: ScanInput, found: Seq<FpLocation>, row: int, j: int) -> Seq<FpLocation>
    decreases j,
{
    if j <= 0 {
        found
    } else {
        scan_fps(inp, scan_cols(inp, found, row, j - 1), row, (j - 1) * inp.mpx, 4)
    }
}

/// The patterns found in the first `i` candidate rows; rows are no longer
/// scanned once four are found.
pub open spec fn scan_rows(inp: ScanInput, i: int) -> Seq<FpLocation>
    decreases i,
{
    if i <= 0 {
        Seq::empty()
    } else {
        let s = scan_rows(inp, i - 1);
        if s.len() >= 4 {
            s
        } else {
            scan_cols(inp, s, (i - 1) * inp.mpx, scan_count(inp.w, 7 * inp.mpx, inp.mpx))
        }
    }
}

/// All patterns found in the image.
pub open spec fn scan_all(inp: ScanInput) -> Seq<FpLocation> {
    scan_rows(inp, scan_count(inp.h, 7 * inp.mpx, inp.mpx))
}

/// The last location of pattern `f` among the first `n` found, or the first
/// location found if there is none.
pub open spec fn last_of_kind(found: Seq<FpLocation>, f: int, n: int) -> FpLocation
    decreases n,
{
    if n <= 0 {
        found[0]
    } else if found[n - 1].fp_idx == f {
        found[n - 1]
    } else {
        last_of_kind(found, f, n - 1)
    }
}

/// Some location of `found` is of pattern `f`.
pub open spec fn has_kind(found: Seq<FpLocation>, f: int) -> bool {
    exists|q: int| 0 <= q < found.len() && #[trigger] found[q].fp_idx == f
}

/// What the search reports: `None` with fewer than four patterns found or
/// with one of the four patterns missing, else for each pattern index its
/// last location found.
pub open spec fn detect_spec(inp: ScanInput) -> Option<Seq<FpLocation>> {
    let found = scan_all(inp);
    if found.len() < 4 || !(has_kind(found, 0) && has_kind(found, 1) && has_kind(found, 2) && has_kind(found, 3)) {
        None
    } else {
        Some(Seq::new(4, |f: int| last_of_kind(found, f, found.len() as int)))
    }
}

proof fn lemma_scan_rows_stable(inp: ScanInput, i: int, j: int)
    requires
        0 <= i <= j,
        scan_rows(inp, i).len() >= 4,
    ensures
        scan_rows(inp, j) == scan_rows(inp, i),
    decreases j - i,
{
    if i < j {
        lemma_scan_rows_stable(inp, i, j - 1);
    }
}

proof fn lemma_scan_count(len: int, extent: int, step: int, i: int)
    requires
        step >= 1,
        extent >= 0,
        i >= 0,
        len >= 0,
    ensures
        (i * step + extent <= len) == (i < scan_count(len, extent, step)),
{
    if len >= extent {
        let q = (len - extent) / step;
        vstd::arithmetic::div_mod::lemma_fundamental_div_mod(len - extent, step);
        assert((i * step <= len - extent) == (i <= q)) by (nonlinear_arith)
            requires step >= 1, q == (len - extent) / step, len - extent == step * q + (len - extent) % step,
                0 <= (len - extent) % step < step, i >= 0;
    } else {
        assert(i * step >= 0) by (nonlinear_arith)
            requires i >= 0, step >= 1;
    }
}

/// Whether a found pattern lies within one pattern side of (row, col).
fn any_dup(found: &Vec<FpLocation>, row_px: u32, col_px: u32, fp_side_px: u32) -> (d: bool)
    ensures
        d == is_dup(found@, row_px as int, col_px as int, fp_side_px as int),
{
    let mut i: usize = 0;
    while i < found.len()
        invariant
            i <= found@.len(),
            forall|q: int| 0 <= q < i ==> !(abs_diff(#[trigger] found@[q].row_px as int, row_px as int) < fp_side_px
                && abs_diff(found@[q].col_px as int, col_px as int) < fp_side_px),
        decreases found.len() - i,
    {
        let f = found[i];
        let dr = if f.row_px >= row_px { f.row_px - row_px } else { row_px - f.row_px };
        let dc = if f.col_px >= col_px { f.col_px - col_px } else { col_px - f.col_px };
        if dr < fp_side_px && dc < fp_side_px {
            assert(abs_diff(found@[i as int].row_px as int, row_px as int) < fp_side_px);
            return true;
        }
        i += 1;
    }
    false
}

/// The last location of pattern `f` found, or the first location found.
fn last_of_kind_exec(found: &Vec<FpLocation>, f: usize) -> (loc: FpLocation)
    requires
        found@.len() >= 1,
    ensures
        loc == last_of_kind(found@, f as int, found@.len() as int),
{
    let mut loc = found[0];
    let mut i: usize = 0;
    while i < found.len()
        invariant
            found@.len() >= 1,
            i <= found@.len(),
            loc == last_of_kind(found@, f as int, i as int),
        decreases found.len() - i,
    {
        if found[i].fp_idx == f {
            loc = found[i];
        }
        i += 1;
    }
    loc
}



/// Whether some location of `found` is of pattern `f`.
fn has_kind_exec(found: &Vec<FpLocation>, f: usize) -> (b: bool)
    ensures
        b == has_kind(found@, f as int),
{
    let mut i: usize = 0;
    while i < found.len()
        invariant
            i <= found@.len(),
            forall|q: int| 0 <= q < i ==> #[trigger] found@[q].fp_idx != f,
        decreases found.len() - i,
    {
        if found[i].fp_idx == f {
            assert(found@[i as int].fp_idx == f);
            return true;
        }
        i += 1;
    }
    false
}

/// Given an RGBA image and a palette, find the four finder patterns: scan
/// candidate top-left corners every `module_px` pixels, row by row, and
/// record each pattern that matches and is not within one pattern side of one
/// already found. Returns `None` if fewer than 4 are found or one of the four
/// patterns is missing; else slot `i` holds pattern `i`, a window on the
/// module grid, inside the image, that shows the pattern.
pub fn detect_fps(rgba: &[u8], width: u32, height: u32, palette: &[Rgb], module_px: u32) -> (r: Option<[FpLocation; 4]>)
    requires
        image_ok(rgba@, width as int, height as int),
        palette@.len() >= 4,
        module_px >= 1,
        width + 7 * module_px <= u32::MAX,
        height + 7 * module_px <= u32::MAX,
    ensures
        match detect_spec(ScanInput { rgba: rgba@, w: width as int, h: height as int, palette: palette@, mpx: module_px as int }) {
            None => r is None,
            Some(locs) => r matches Some(arr) && arr@ == locs,
        },
        r matches Some(arr) ==> forall|i: int| 0 <= i < 4 ==> {
            &&& (#[trigger] arr@[i]).fp_idx == i
            &&& arr@[i].row_px % module_px == 0
            &&& arr@[i].col_px % module_px == 0
            &&& arr@[i].row_px + 7 * module_px <= height
            &&& arr@[i].col_px + 7 * module_px <= width
            &&& matches_fp_spec(rgba@, width as int, arr@[i].row_px as int, arr@[i].col_px as int, module_px as int, palette@, i)
        },
{
    let ghost inp = ScanInput { rgba: rgba@, w: width as int, h: height as int, palette: palette@, mpx: module_px as int };
    let fp_side_px = (FP_SIZE as u32) * module_px;
    let step = module_px;
    let ghost ncols = scan_count(width as int, 7 * module_px, module_px as int);
    let ghost nrows = scan_count(height as int, 7 * module_px, module_px as int);

    let mut found: Vec<FpLocation> = Vec::new();
    let mut row_px: u32 = 0;
    let ghost mut i: int = 0;
    while row_px + fp_side_px <= height && found.len() < 4
        invariant
            image_ok(rgba@, width as int, height as int),
            palette@.len() >= 4,
            module_px >= 1,
            fp_side_px == 7 * module_px,
            step == module_px,
            inp == (ScanInput { rgba: rgba@, w: width as int, h: height as int, palette: palette@, mpx: module_px as int }),
            ncols == scan_count(width as int, 7 * module_px, module_px as int),
            nrows == scan_count(height as int, 7 * module_px, module_px as int),
            0 <= i,
            row_px == i * module_px,
            row_px <= height,
            width + 7 * module_px <= u32::MAX,
            height + 7 * module_px <= u32::MAX,
            i <= nrows,
            found@ == scan_rows(inp, i),
        decreases nrows - i,
    {
        proof {
            lemma_scan_count(height as int, 7 * module_px, module_px as int, i);
        }
        let mut col_px: u32 = 0;
        let ghost mut j: int = 0;
        let ghost start = found@;
        while col_px + fp_side_px <= width
            invariant
                image_ok(rgba@, width as int, height as int),
                palette@.len() >= 4,
                module_px >= 1,
                fp_side_px == 7 * module_px,
                step == module_px,
                inp == (ScanInput { rgba: rgba@, w: width as int, h: height as int, palette: palette@, mpx: module_px as int }),
                ncols == scan_count(width as int, 7 * module_px, module_px as int),
                row_px + fp_side_px <= height,
                0 <= j,
                col_px == j * module_px,
                col_px <= width,
                width + 7 * module_px <= u32::MAX,
                j <= ncols,
                found@ == scan_cols(inp, start, row_px as int, j),
            decreases ncols - j,
        {
            proof {
                lemma_scan_count(width as int, 7 * module_px, module_px as int, j);
            }
            let ghost before = found@;
            // Try all four finder patterns.
            let mut fp_idx: usize = 0;
            while fp_idx < 4
                invariant
                    image_ok(rgba@, width as int, height as int),
                    palette@.len() >= 4,
                    module_px >= 1,
                    fp_side_px == 7 * module_px,
                    inp == (ScanInput { rgba: rgba@, w: width as int, h: height as int, palette: palette@, mpx: module_px as int }),
                    row_px + fp_side_px <= height,
                    col_px + fp_side_px <= width,
                    fp_idx <= 4,
                    found@ == scan_fps(inp, before, row_px as int, col_px as int, fp_idx as int),
                decreases 4 - fp_idx,
            {
                proof {
                    assert(6 * module_px + module_px / 2 < 7 * module_px) by (nonlinear_arith)
                        requires module_px >= 1;
                }
                if matches_fp(rgba, width, height, row_px, col_px, module_px, palette, fp_idx) {
                    // Avoid duplicates (within one pattern side).
                    if !any_dup(&found, row_px, col_px, fp_side_px) {
                        found.push(FpLocation { fp_idx, row_px, col_px });
                    }
                }
                fp_idx += 1;
            }
            col_px += step;
            proof {
                j = j + 1;
                assert(col_px == j * module_px) by (nonlinear_arith)
                    requires col_px == (j - 1) * module_px + module_px;
            }
        }
        proof {
            lemma_scan_count(width as int, 7 * module_px, module_px as int, j);
            assert(j == ncols);
        }
        row_px += step;
        proof {
            i = i + 1;
            assert(row_px == i * module_px) by (nonlinear_arith)
                requires row_px == (i - 1) * module_px + module_px;
        }
    }
    proof {
        lemma_scan_count(height as int, 7 * module_px, module_px as int, i);
        if found@.len() >= 4 {
            lemma_scan_rows_stable(inp, i, nrows);
        } else {
            assert(i == nrows);
        }
    }

    if found.len() < 4 {
        return None;
    }
    if !(has_kind_exec(&found, 0) && has_kind_exec(&found, 1) && has_kind_exec(&found, 2) && has_kind_exec(&found, 3)) {
        return None;
    }
    proof {
        lemma_detect_sound(inp);
    }

    // Arrange as [FP0, FP1, FP2, FP3] by pattern index.
    let a0 = last_of_kind_exec(&found, 0);
    let a1 = last_of_kind_exec(&found, 1);
    let a2 = last_of_kind_exec(&found, 2);
    let a3 = last_of_kind_exec(&found, 3);
    let arr = [a0, a1, a2, a3];
    proof {
        assert(arr@ =~= Seq::new(4, |f: int| last_of_kind(found@, f, found@.len() as int)));
    }
    Some(arr)
}

/// Detect the module size by trying candidate sizes from `max_px` down to
/// `min_px`; returns the first size at which four finder patterns are found.
pub fn detect_module_px(rgba: &[u8], width: u32, height: u32, palette: &[Rgb], min_px: u32, max_px: u32) -> (r: Option<u32>)
    requires
        image_ok(rgba@, width as int, height as int),
        palette@.len() >= 4,
        min_px >= 1,
        width + 7 * max_px <= u32::MAX,
        height + 7 * max_px <= u32::MAX,
    ensures
        match r {
            Some(p) => min_px <= p <= max_px
                && detect_spec(ScanInput { rgba: rgba@, w: width as int, h: height as int, palette: palette@, mpx: p as int }) is Some
                && forall|q: int| p < q <= max_px ==>
                    detect_spec(ScanInput { rgba: rgba@, w: width as int, h: height as int, palette: palette@, mpx: q }) is None,
            None => forall|q: int| min_px <= q <= max_px ==>
                detect_spec(ScanInput { rgba: rgba@, w: width as int, h: height as int, palette: palette@, mpx: q }) is None,
        },
{
    if min_px > max_px {
        return None;
    }
    let mut cand = max_px;
    loop
        invariant
            image_ok(rgba@, width as int, height as int),
            palette@.len() >= 4,
            1 <= min_px <= cand <= max_px,
            width + 7 * max_px <= u32::MAX,
            height + 7 * max_px <= u32::MAX,
            forall|q: int| cand < q <= max_px ==>
                detect_spec(ScanInput { rgba: rgba@, w: width as int, h: height as int, palette: palette@, mpx: q }) is None,
        decreases cand - min_px,
    {
        if detect_fps(rgba, width, height, palette, cand).is_some() {
            return Some(cand);
        }
        if cand == min_px {
            return None;
        }
        cand -= 1;
    }
}

/// The located pattern lies inside a `w × h` image and names one of the four patterns.
pub open spec fn loc_in_image(l: FpLocation, w: int, h: int, mpx: int) -> bool {
    &&& l.fp_idx < 4
    &&& l.row_px + 7 * mpx <= h
    &&& l.col_px + 7 * mpx <= w
}

/// A location the search records: inside the image, on the module grid,
/// and showing its pattern.
pub open spec fn found_ok(inp: ScanInput, l: FpLocation) -> bool {
    &&& loc_in_image(l, inp.w, inp.h, inp.mpx)
    &&& (l.row_px as int) % inp.mpx == 0
    &&& (l.col_px as int) % inp.mpx == 0
    &&& matches_fp_spec(inp.rgba, inp.w, l.row_px as int, l.col_px as int, inp.mpx, inp.palette, l.fp_idx as int)
}

proof fn lemma_scan_fps_bounds(inp: ScanInput, found: Seq<FpLocation>, row: int, col: int, f: int)
    requires
        forall|q: int| 0 <= q < found.len() ==> found_ok(inp, #[trigger] found[q]),
        0 <= row,
        0 <= col,
        row + 7 * inp.mpx <= inp.h <= u32::MAX,
        col + 7 * inp.mpx <= inp.w <= u32::MAX,
        inp.mpx >= 1,
        row % inp.mpx == 0,
        col % inp.mpx == 0,
        f <= 4,
    ensures
        forall|q: int| 0 <= q < scan_fps(inp, found, row, col, f).len() ==>
            found_ok(inp, #[trigger] scan_fps(inp, found, row, col, f)[q]),
    decreases f,
{
    if f > 0 {
        lemma_scan_fps_bounds(inp, found, row, col, f - 1);
        let s = scan_fps(inp, found, row, col, f - 1);
        let l = FpLocation { fp_idx: (f - 1) as usize, row_px: row as u32, col_px: col as u32 };
        assert(l.row_px == row && l.col_px == col && l.fp_idx == f - 1);
        if matches_fp_spec(inp.rgba, inp.w, row, col, inp.mpx, inp.palette, f - 1) && !is_dup(s, row, col, 7 * inp.mpx) {
            assert(found_ok(inp, l));
            assert forall|q: int| 0 <= q < s.push(l).len() implies found_ok(inp, #[trigger] s.push(l)[q]) by {
                if q < s.len() {
                    assert(s.push(l)[q] == s[q]);
                }
            }
        }
    }
}

proof fn lemma_scan_cols_bounds(inp: ScanInput, found: Seq<FpLocation>, row: int, j: int)
    requires
        forall|q: int| 0 <= q < found.len() ==> found_ok(inp, #[trigger] found[q]),
        0 <= row,
        row % inp.mpx == 0,
        row + 7 * inp.mpx <= inp.h <= u32::MAX,
        0 <= inp.w <= u32::MAX,
        inp.mpx >= 1,
        j <= scan_count(inp.w, 7 * inp.mpx, inp.mpx),
    ensures
        forall|q: int| 0 <= q < scan_cols(inp, found, row, j).len() ==>
            found_ok(inp, #[trigger] scan_cols(inp, found, row, j)[q]),
    decreases j,
{
    if j > 0 {
        lemma_scan_cols_bounds(inp, found, row, j - 1);
        lemma_scan_count(inp.w, 7 * inp.mpx, inp.mpx, j - 1);
        assert(0 <= (j - 1) * inp.mpx) by (nonlinear_arith)
            requires j >= 1, inp.mpx >= 1;
        vstd::arithmetic::div_mod::lemma_mod_multiples_basic(j - 1, inp.mpx);
        lemma_scan_fps_bounds(inp, scan_cols(inp, found, row, j - 1), row, (j - 1) * inp.mpx, 4);
    }
}

proof fn lemma_scan_rows_bounds(inp: ScanInput, i: int)
    requires
        0 <= inp.h <= u32::MAX,
        0 <= inp.w <= u32::MAX,
        inp.mpx >= 1,
        i <= scan_count(inp.h, 7 * inp.mpx, inp.mpx),
    ensures
        forall|q: int| 0 <= q < scan_rows(inp, i).len() ==>
            found_ok(inp, #[trigger] scan_rows(inp, i)[q]),
    decreases i,
{
    if i > 0 {
        lemma_scan_rows_bounds(inp, i - 1);
        let s = scan_rows(inp, i - 1);
        if s.len() < 4 {
            lemma_scan_count(inp.h, 7 * inp.mpx, inp.mpx, i - 1);
            assert(0 <= (i - 1) * inp.mpx) by (nonlinear_arith)
                requires i >= 1, inp.mpx >= 1;
            vstd::arithmetic::div_mod::lemma_mod_multiples_basic(i - 1, inp.mpx);
            lemma_scan_cols_bounds(inp, s, (i - 1) * inp.mpx, scan_count(inp.w, 7 * inp.mpx, inp.mpx));
        }
    }
}

/// The last location of a pattern that was found is of that pattern and is
/// one of the locations found.
proof fn lemma_last_of_kind_in(found: Seq<FpLocation>, f: int, n: int)
    requires
        found.len() >= 1,
        n <= found.len(),
        exists|q: int| 0 <= q < n && #[trigger] found[q].fp_idx == f,
    ensures
        exists|q: int| 0 <= q < found.len() && found[q] == last_of_kind(found, f, n),
        last_of_kind(found, f, n).fp_idx == f,
    decreases n,
{
    if found[n - 1].fp_idx == f {
        assert(found[n - 1] == last_of_kind(found, f, n));
    } else {
        let q = choose|q: int| 0 <= q < n && #[trigger] found[q].fp_idx == f;
        assert(q < n - 1);
        lemma_last_of_kind_in(found, f, n - 1);
    }
}

/// Every location the search reports holds the pattern of its slot, lies
/// on the module grid inside the image, and shows that pattern.
pub proof fn lemma_detect_sound(inp: ScanInput)
    requires
        0 <= inp.h <= u32::MAX,
        0 <= inp.w <= u32::MAX,
        inp.mpx >= 1,
    ensures
        detect_spec(inp) matches Some(locs) ==> locs.len() == 4
            && forall|f: int| 0 <= f < 4 ==> (#[trigger] locs[f]).fp_idx == f && found_ok(inp, locs[f]),
{
    lemma_scan_rows_bounds(inp, scan_count(inp.h, 7 * inp.mpx, inp.mpx));
    let found = scan_all(inp);
    if detect_spec(inp) is Some {
        let locs = Seq::new(4, |f: int| last_of_kind(found, f, found.len() as int));
        assert forall|f: int| 0 <= f < 4 implies (#[trigger] locs[f]).fp_idx == f && found_ok(inp, locs[f]) by {
            assert(has_kind(found, f));
            lemma_last_of_kind_in(found, f, found.len() as int);
            let q = choose|q: int| 0 <= q < found.len() && found[q] == last_of_kind(found, f, found.len() as int);
            assert(found_ok(inp, found[q]));
        }
        assert(detect_spec(inp) == Some(locs));
    }
}

/// Every location the search reports lies inside the image.
pub proof fn lemma_detect_in_image(inp: ScanInput)
    requires
        0 <= inp.h <= u32::MAX,
        0 <= inp.w <= u32::MAX,
        inp.mpx >= 1,
    ensures
        detect_spec(inp) matches Some(locs) ==> locs.len() == 4
            && forall|f: int| 0 <= f < 4 ==> loc_in_image(#[trigger] locs[f], inp.w, inp.h, inp.mpx),
{
    lemma_detect_sound(inp);
    if detect_spec(inp) is Some {
        let locs = detect_spec(inp)->0;
        assert forall|f: int| 0 <= f < 4 implies loc_in_image(#[trigger] locs[f], inp.w, inp.h, inp.mpx) by {
            assert(found_ok(inp, locs[f]));
        }
    }
}

// ---------------------------------------------------------------------------
// The search on a symbol drawn from pixel (0, 0)
// ---------------------------------------------------------------------------

/// Which finder pattern has its top-left module at module (a, b) of a
/// `side`-module symbol, or -1 where none has.
pub open spec fn corner_kind(side: int, a: int, b: int) -> int {
    if a == 0 && b == 0 {
        0
    } else if a == 0 && b == side - 7 {
        1
    } else if a == side - 7 && b == 0 {
        2
    } else if a == side - 7 && b == side - 7 {
        3
    } else {
        -1
    }
}

/// Where finder pattern `f` of a `side`-module symbol drawn from pixel
/// (0, 0), with modules `mpx` pixels wide, stands.
pub open spec fn corner_loc(side: int, mpx: int, f: int) -> FpLocation {
    FpLocation {
        fp_idx: f as usize,
        row_px: (corner_row(side, f) * mpx) as u32,
        col_px: (corner_col(side, f) * mpx) as u32,
    }
}

/// The window at the corner of finder pattern `f` reads as pattern `f`.
pub open spec fn corner_matches(inp: ScanInput, side: int, f: int) -> bool {
    matches_fp_spec(inp.rgba, inp.w, corner_row(side, f) * inp.mpx, corner_col(side, f) * inp.mpx, inp.mpx, inp.palette, f)
}

/// No module-aligned 7 × 7 window of the image other than the corner of
/// finder pattern `f` reads as pattern `f` within three mismatching modules.
pub open spec fn only_corners_match(inp: ScanInput, side: int) -> bool {
    forall|row: int, col: int, f: int|
        0 <= row && 0 <= col && row % inp.mpx == 0 && col % inp.mpx == 0
            && row + 7 * inp.mpx <= inp.h && col + 7 * inp.mpx <= inp.w && 0 <= f < 4
            && #[trigger] matches_fp_spec(inp.rgba, inp.w, row, col, inp.mpx, inp.palette, f)
            ==> row == corner_row(side, f) * inp.mpx && col == corner_col(side, f) * inp.mpx
}

/// The corners of module row `a` whose module column is below `j`, left to right.
pub open spec fn row_corners(side: int, mpx: int, a: int, j: int) -> Seq<FpLocation> {
    if a == 0 || a == side - 7 {
        let f = if a == 0 { 0int } else { 2int };
        (if j > 0 { seq![corner_loc(side, mpx, f)] } else { Seq::empty() })
            + (if j > side - 7 { seq![corner_loc(side, mpx, f + 1)] } else { Seq::empty() })
    } else {
        Seq::empty()
    }
}

/// Trying the four patterns at one position where only pattern `k` (if any)
/// matches adds pattern `k` unless a pattern found before is too close.
proof fn lemma_scan_fps_at(inp: ScanInput, found: Seq<FpLocation>, row: int, col: int, k: int, n: int)
    requires
        0 <= n <= 4,
        forall|f: int| 0 <= f < 4 ==> (#[trigger] matches_fp_spec(inp.rgba, inp.w, row, col, inp.mpx, inp.palette, f) <==> f == k),
    ensures
        scan_fps(inp, found, row, col, n) == (if 0 <= k < n && !is_dup(found, row, col, 7 * inp.mpx) {
            found.push(FpLocation { fp_idx: k as usize, row_px: row as u32, col_px: col as u32 })
        } else {
            found
        }),
    decreases n,
{
    if n > 0 {
        lemma_scan_fps_at(inp, found, row, col, k, n - 1);
        assert(matches_fp_spec(inp.rgba, inp.w, row, col, inp.mpx, inp.palette, n - 1) <==> n - 1 == k);
    }
}

/// Module `a` of an axis `mpx` pixels per module: its pixel is a multiple of
/// `mpx`, and equal pixels mean equal modules.
proof fn lemma_module_px(a: int, b: int, mpx: int)
    requires
        mpx >= 1,
    ensures
        (a * mpx) % mpx == 0,
        a * mpx == b * mpx ==> a == b,
{
    vstd::arithmetic::div_mod::lemma_mod_multiples_basic(a, mpx);
    if a * mpx == b * mpx {
        assert(a == b) by (nonlinear_arith)
            requires a * mpx == b * mpx, mpx >= 1;
    }
}

/// Scanning the first `j` columns of module row `a` adds the corners of that row.
proof fn lemma_scan_cols_render(inp: ScanInput, side: int, found: Seq<FpLocation>, a: int, j: int)
    requires
        side >= 21,
        inp.mpx >= 1,
        inp.w == side * inp.mpx,
        inp.h == inp.w,
        inp.w <= u32::MAX,
        only_corners_match(inp, side),
        forall|f: int| 0 <= f < 4 ==> #[trigger] corner_matches(inp, side, f),
        0 <= a <= side - 7,
        0 <= j <= side - 6,
        a == 0 || a == side - 7 ==> forall|q: int| 0 <= q < found.len() ==> #[trigger] found[q].row_px + 7 * inp.mpx <= a * inp.mpx,
    ensures
        scan_cols(inp, found, a * inp.mpx, j) == found + row_corners(side, inp.mpx, a, j),
    decreases j,
{
    let m = inp.mpx;
    if j == 0 {
        assert(found + row_corners(side, m, a, 0) =~= found);
    } else {
        let b = j - 1;
        lemma_scan_cols_render(inp, side, found, a, b);
        let prev = found + row_corners(side, m, a, b);
        let k = corner_kind(side, a, b);
        let row = a * m;
        let col = b * m;
        assert((a + 7) * m <= side * m && (b + 7) * m <= side * m) by (nonlinear_arith)
            requires a + 7 <= side, b + 7 <= side, m >= 1;
        assert(row + 7 * m == (a + 7) * m && col + 7 * m == (b + 7) * m) by (nonlinear_arith)
            requires row == a * m, col == b * m;
        assert(0 <= row && 0 <= col) by (nonlinear_arith)
            requires a >= 0, b >= 0, m >= 1, row == a * m, col == b * m;
        assert forall|f: int| 0 <= f < 4 implies (#[trigger] matches_fp_spec(inp.rgba, inp.w, row, col, m, inp.palette, f) <==> f == k) by {
            lemma_module_px(a, corner_row(side, f), m);
            lemma_module_px(b, corner_col(side, f), m);
            if f == k {
                assert(corner_matches(inp, side, f));
            }
        }
        lemma_scan_fps_at(inp, prev, row, col, k, 4);
        assert(row as u32 == row && col as u32 == col) by (nonlinear_arith)
            requires 0 <= row, 0 <= col, row + 7 * m <= side * m, col + 7 * m <= side * m, side * m <= u32::MAX, m >= 1;
        if k >= 0 {
            // No pattern found so far lies within one pattern side.
            assert forall|q: int| 0 <= q < prev.len() implies !(abs_diff(#[trigger] prev[q].row_px as int, row) < 7 * m
                && abs_diff(prev[q].col_px as int, col) < 7 * m) by {
                if q >= found.len() {
                    assert(b == side - 7);
                    assert((side - 7) * m >= 7 * m) by (nonlinear_arith)
                        requires side >= 21, m >= 1;
                    assert(prev[q] == corner_loc(side, m, if a == 0 { 0int } else { 2int }));
                }
            }
            assert(!is_dup(prev, row, col, 7 * m));
            assert(corner_loc(side, m, k) == FpLocation { fp_idx: k as usize, row_px: row as u32, col_px: col as u32 });
            assert(prev.push(corner_loc(side, m, k)) =~= found + row_corners(side, m, a, j));
        } else {
            assert(row_corners(side, m, a, j) =~= row_corners(side, m, a, b));
        }
    }
}

/// Scanning the first `i` module rows finds the corners of those rows.
proof fn lemma_scan_rows_render(inp: ScanInput, side: int, i: int)
    requires
        side >= 21,
        inp.mpx >= 1,
        inp.w == side * inp.mpx,
        inp.h == inp.w,
        inp.w <= u32::MAX,
        only_corners_match(inp, side),
        forall|f: int| 0 <= f < 4 ==> #[trigger] corner_matches(inp, side, f),
        0 <= i <= side - 6,
    ensures
        scan_rows(inp, i) == (if i == 0 {
            Seq::empty()
        } else if i <= side - 7 {
            seq![corner_loc(side, inp.mpx, 0), corner_loc(side, inp.mpx, 1)]
        } else {
            seq![corner_loc(side, inp.mpx, 0), corner_loc(side, inp.mpx, 1), corner_loc(side, inp.mpx, 2), corner_loc(side, inp.mpx, 3)]
        }),
    decreases i,
{
    let m = inp.mpx;
    if i > 0 {
        lemma_scan_rows_render(inp, side, i - 1);
        let s = scan_rows(inp, i - 1);
        let a = i - 1;
        assert(inp.w - 7 * m == (side - 7) * m) by (nonlinear_arith)
            requires inp.w == side * m;
        vstd::arithmetic::div_mod::lemma_div_multiples_vanish(side - 7, m);
        assert((side - 7) * m == m * (side - 7)) by (nonlinear_arith);
        assert(scan_count(inp.w, 7 * m, m) == side - 6);
        if a == side - 7 {
            assert((side - 7) * m >= 7 * m) by (nonlinear_arith)
                requires side >= 21, m >= 1;
            assert(corner_loc(side, m, 0).row_px == 0 && corner_loc(side, m, 1).row_px == 0);
        }
        lemma_scan_cols_render(inp, side, s, a, side - 6);
        if a == 0 {
            assert(s + row_corners(side, m, a, side - 6) =~= seq![corner_loc(side, m, 0), corner_loc(side, m, 1)]);
        } else if a < side - 7 {
            assert(s + row_corners(side, m, a, side - 6) =~= s);
        } else {
            assert(s + row_corners(side, m, a, side - 6) =~= seq![corner_loc(side, m, 0), corner_loc(side, m, 1), corner_loc(side, m, 2), corner_loc(side, m, 3)]);
        }
    }
}

/// On the image of a `side`-module symbol drawn from pixel (0, 0), where
/// each finder pattern reads as itself at its corner and no other
/// module-aligned window reads as a finder pattern, the search reports the
/// four corners, each pattern in its own slot.
pub proof fn lemma_detect_corners(inp: ScanInput, side: int)
    requires
        side >= 21,
        inp.mpx >= 1,
        inp.w == side * inp.mpx,
        inp.h == inp.w,
        inp.w <= u32::MAX,
        only_corners_match(inp, side),
        forall|f: int| 0 <= f < 4 ==> #[trigger] corner_matches(inp, side, f),
    ensures
        detect_spec(inp) == Some(Seq::new(4, |f: int| corner_loc(side, inp.mpx, f))),
{
    let m = inp.mpx;
    assert(inp.h - 7 * m == (side - 7) * m) by (nonlinear_arith)
        requires inp.h == side * m;
    vstd::arithmetic::div_mod::lemma_div_multiples_vanish(side - 7, m);
    assert((side - 7) * m == m * (side - 7)) by (nonlinear_arith);
    assert(scan_count(inp.h, 7 * m, m) == side - 6);
    lemma_scan_rows_render(inp, side, side - 6);
    let found = scan_all(inp);
    let want = Seq::new(4, |f: int| corner_loc(side, m, f));
    assert(found =~= want);
    assert forall|f: int| 0 <= f < 4 implies has_kind(found, f) by {
        assert(found[f].fp_idx == f);
    }
    reveal_with_fuel(last_of_kind, 5);
    assert(Seq::new(4, |f: int| last_of_kind(found, f, found.len() as int)) =~= want);
}

/// Among the first `t` modules of a window, at most as many mismatch as
/// there are listed positions below `t`, when every mismatch is listed.
proof fn lemma_mismatches_at_most(rgba: Seq<u8>, w: int, row_px: int, col_px: int, mpx: int, palette: Seq<Rgb>, fp: int, a: int, b: int, c: int, t: int)
    requires
        0 <= t <= 49,
        forall|u: int| 0 <= u < 49 && #[trigger] fp_mismatch(rgba, w, row_px, col_px, mpx, palette, fp, u) ==> u == a || u == b || u == c,
    ensures
        fp_mismatches(rgba, w, row_px, col_px, mpx, palette, fp, t)
            <= (if a < t { 1int } else { 0 }) + (if b < t { 1int } else { 0 }) + (if c < t { 1int } else { 0 }),
    decreases t,
{
    if t > 0 {
        lemma_mismatches_at_most(rgba, w, row_px, col_px, mpx, palette, fp, a, b, c, t - 1);
        if fp_mismatch(rgba, w, row_px, col_px, mpx, palette, fp, t - 1) {
            assert(t - 1 == a || t - 1 == b || t - 1 == c);
        }
    }
}

/// Among the first `t` modules of a window, at least as many mismatch as
/// there are mismatching positions listed below `t`.
proof fn lemma_mismatches_at_least(rgba: Seq<u8>, w: int, row_px: int, col_px: int, mpx: int, palette: Seq<Rgb>, fp: int, a: int, b: int, c: int, d: int, t: int)
    requires
        0 <= t <= 49,
        a < b < c < d,
        fp_mismatch(rgba, w, row_px, col_px, mpx, palette, fp, a),
        fp_mismatch(rgba, w, row_px, col_px, mpx, palette, fp, b),
        fp_mismatch(rgba, w, row_px, col_px, mpx, palette, fp, c),
        fp_mismatch(rgba, w, row_px, col_px, mpx, palette, fp, d),
    ensures
        fp_mismatches(rgba, w, row_px, col_px, mpx, palette, fp, t)
            >= (if 0 <= a < t { 1int } else { 0 }) + (if 0 <= b < t { 1int } else { 0 }) + (if 0 <= c < t { 1int } else { 0 })
                + (if 0 <= d < t { 1int } else { 0 }),
    decreases t,
{
    if t > 0 {
        lemma_mismatches_at_least(rgba, w, row_px, col_px, mpx, palette, fp, a, b, c, d, t - 1);
    }
}

/// The finder pattern test tolerates noise in up to three modules: a window
/// whose module centers read as finder pattern `fp` everywhere but at (at
/// most) three modules `a`, `b` and `c` (row-major within the window) is a
/// match of pattern `fp`.
pub proof fn lemma_match_tolerates_three(rgba: Seq<u8>, w: int, row_px: int, col_px: int, mpx: int, palette: Seq<Rgb>, fp: int, a: int, b: int, c: int)
    requires
        forall|u: int| 0 <= u < 49 && u != a && u != b && u != c ==> !#[trigger] fp_mismatch(rgba, w, row_px, col_px, mpx, palette, fp, u),
    ensures
        matches_fp_spec(rgba, w, row_px, col_px, mpx, palette, fp),
{
    lemma_mismatches_at_most(rgba, w, row_px, col_px, mpx, palette, fp, a, b, c, 49);
}

/// A window whose module centers misread finder pattern `fp` at four
/// distinct modules is no match of pattern `fp`.
pub proof fn lemma_four_misreads_reject(rgba: Seq<u8>, w: int, row_px: int, col_px: int, mpx: int, palette: Seq<Rgb>, fp: int, a: int, b: int, c: int, d: int)
    requires
        0 <= a < b < c < d < 49,
        fp_mismatch(rgba, w, row_px, col_px, mpx, palette, fp, a),
        fp_mismatch(rgba, w, row_px, col_px, mpx, palette, fp, b),
        fp_mismatch(rgba, w, row_px, col_px, mpx, palette, fp, c),
        fp_mismatch(rgba, w, row_px, col_px, mpx, palette, fp, d),
    ensures
        !matches_fp_spec(rgba, w, row_px, col_px, mpx, palette, fp),
{
    lemma_mismatches_at_least(rgba, w, row_px, col_px, mpx, palette, fp, a, b, c, d, 49);
}
} // verus!
