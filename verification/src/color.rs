use vstd::prelude::*;
use crate::config::ColorCount;

verus! {

/// RGB color triple.
#[derive(Debug, Clone, Copy, PartialEq, Eq, Structural)]
pub struct Rgb(pub u8, pub u8, pub u8);

/// Squared Euclidean distance between two colors.
pub open spec fn dist_sq(a: Rgb, b: Rgb) -> int {
    (a.0 - b.0) * (a.0 - b.0) + (a.1 - b.1) * (a.1 - b.1) + (a.2 - b.2) * (a.2 - b.2)
}

proof fn lemma_dist_sq_bounds(a: Rgb, b: Rgb)
    ensures
        0 <= dist_sq(a, b) <= 3 * 255 * 255,
{
    let dr = a.0 - b.0;
    let dg = a.1 - b.1;
    let db = a.2 - b.2;
    assert(0 <= dr * dr <= 255 * 255) by (nonlinear_arith)
        requires -255 <= dr <= 255;
    assert(0 <= dg * dg <= 255 * 255) by (nonlinear_arith)
        requires -255 <= dg <= 255;
    assert(0 <= db * db <= 255 * 255) by (nonlinear_arith)
        requires -255 <= db <= 255;
}

impl Rgb {
    /// Squared Euclidean distance to `other`.
    pub fn distance_sq(self, other: Rgb) -> (d: u32)
        ensures
            d == dist_sq(self, other),
    {
        proof {
            lemma_dist_sq_bounds(self, other);
        }
        let dr = self.0 as i32 - other.0 as i32;
        let dg = self.1 as i32 - other.1 as i32;
        let db = self.2 as i32 - other.2 as i32;
        proof {
            assert(0 <= dr * dr <= 255 * 255) by (nonlinear_arith)
                requires -255 <= dr <= 255;
            assert(0 <= dg * dg <= 255 * 255) by (nonlinear_arith)
                requires -255 <= dg <= 255;
            assert(0 <= db * db <= 255 * 255) by (nonlinear_arith)
                requires -255 <= db <= 255;
        }
        (dr * dr + dg * dg + db * db) as u32
    }
}

// ---------------------------------------------------------------------------
// The palette
// ---------------------------------------------------------------------------

/// The eight canonical JAB primaries: black, cyan, magenta, yellow, red,
/// green, blue, white.
pub open spec fn base_color(i: int) -> Rgb {
    if i == 0 {
        Rgb(0, 0, 0)
    } else if i == 1 {
        Rgb(0, 255, 255)
    } else if i == 2 {
        Rgb(255, 0, 255)
    } else if i == 3 {
        Rgb(255, 255, 0)
    } else if i == 4 {
        Rgb(255, 0, 0)
    } else if i == 5 {
        Rgb(0, 255, 0)
    } else if i == 6 {
        Rgb(0, 0, 255)
    } else {
        Rgb(255, 255, 255)
    }
}

fn base_palette_color(i: usize) -> (c: Rgb)
    requires
        i < 8,
    ensures
        c == base_color(i as int),
{
    if i == 0 {
        Rgb(0, 0, 0)
    } else if i == 1 {
        Rgb(0, 255, 255)
    } else if i == 2 {
        Rgb(255, 0, 255)
    } else if i == 3 {
        Rgb(255, 255, 0)
    } else if i == 4 {
        Rgb(255, 0, 0)
    } else if i == 5 {
        Rgb(0, 255, 0)
    } else if i == 6 {
        Rgb(0, 0, 255)
    } else {
        Rgb(255, 255, 255)
    }
}

/// The first `n` canonical primaries (at most eight).
pub open spec fn base_prefix(n: int) -> Seq<Rgb> {
    Seq::new((if n <= 8 { n } else { 8 }) as nat, |i: int| base_color(i))
}

/// The smallest `s >= 0` with `s³ >= x`: the ceiling of the cube root.
pub open spec fn is_ceil_cbrt(s: int, x: int) -> bool {
    s >= 0 && s * s * s >= x && (s == 0 || (s - 1) * (s - 1) * (s - 1) < x)
}

/// The ceiling of the cube root of `x`.
pub open spec fn ceil_cbrt_spec(x: int) -> int {
    choose|s: int| is_ceil_cbrt(s, x)
}

/// Samples per channel of the RGB cube for `extra` colors beyond the
/// primaries: one more than the ceiling of the cube root of `extra`.
pub open spec fn cube_steps(extra: int) -> int {
    ceil_cbrt_spec(extra) + 1
}

proof fn lemma_ceil_cbrt_unique(s: int, x: int)
    requires
        is_ceil_cbrt(s, x),
    ensures
        ceil_cbrt_spec(x) == s,
{
    let t = ceil_cbrt_spec(x);
    assert(is_ceil_cbrt(t, x));
    if t < s {
        assert(t * t * t <= (s - 1) * (s - 1) * (s - 1)) by (nonlinear_arith)
            requires 0 <= t <= s - 1;
    } else if s < t {
        assert(s * s * s <= (t - 1) * (t - 1) * (t - 1)) by (nonlinear_arith)
            requires 0 <= s <= t - 1;
    }
}

/// Channel value of sample `v` of `steps` equally spaced samples of 0..=255.
pub open spec fn cube_level(v: int, steps: int) -> u8 {
    (v * 255 / (if steps - 1 >= 1 { steps - 1 } else { 1 })) as u8
}

/// Candidate `t` of the RGB cube sampled at `steps` levels per channel,
/// red slowest, blue fastest.
pub open spec fn cube_color(t: int, steps: int) -> Rgb {
    Rgb(cube_level(t / steps / steps, steps), cube_level((t / steps) % steps, steps), cube_level(t % steps, steps))
}

/// `c` lies within squared distance 900 of a color of `p`.
pub open spec fn near_dup(p: Seq<Rgb>, c: Rgb) -> bool {
    exists|i: int| 0 <= i < p.len() && #[trigger] dist_sq(p[i], c) < 900
}

/// The palette after offering the first `t` cube candidates: a candidate is
/// added unless the palette is full (`n` colors) or holds a color close to it.
pub open spec fn cube_fold(init: Seq<Rgb>, n: int, steps: int, t: int) -> Seq<Rgb>
    decreases t,
{
    if t <= 0 {
        init
    } else {
        let p = cube_fold(init, n, steps, t - 1);
        let c = cube_color(t - 1, steps);
        if p.len() >= n || near_dup(p, c) {
            p
        } else {
            p.push(c)
        }
    }
}

/// Gray `j` of the filler sequence 32, 45, 58, ... (wrapping at 256).
pub open spec fn filler_gray(j: int) -> Rgb {
    let g = ((32 + 13 * j) % 256) as u8;
    Rgb(g, g, g)
}

/// `p` topped up to `n` colors with the filler grays.
pub open spec fn gray_fill(p: Seq<Rgb>, n: int) -> Seq<Rgb> {
    if p.len() >= n {
        p
    } else {
        p + Seq::new((n - p.len()) as nat, |j: int| filler_gray(j))
    }
}

/// The palette of `n` colors: the canonical primaries, then (beyond eight)
/// samples of the RGB cube that are not close to an earlier color, then
/// filler grays.
pub open spec fn palette_spec(n: int) -> Seq<Rgb> {
    let steps = cube_steps(n - 8);
    if n <= 8 {
        base_prefix(n)
    } else {
        gray_fill(cube_fold(base_prefix(8), n, steps, steps * steps * steps), n)
    }
}

/// Smallest `s` with `s³ >= x`.
fn ceil_cbrt(x: usize) -> (s: usize)
    requires
        x <= 1000,
    ensures
        is_ceil_cbrt(s as int, x as int),
        s == ceil_cbrt_spec(x as int),
        s <= 10,
{
    let mut s: usize = 0;
    while s * s * s < x
        invariant
            x <= 1000,
            s <= 10,
            s * s <= 100,
            s * s * s <= 1000,
            s == 0 || (s - 1) * (s - 1) * (s - 1) < x,
        decreases 10 - s,
    {
        proof {
            if s == 10 {
                assert(s * s * s == 1000);
            }
            assert(s * s * s < x);
        }
        s += 1;
        proof {
            assert(s <= 10);
            assert(s * s <= 100 && s * s * s <= 1000) by (nonlinear_arith)
                requires s <= 10;
        }
    }
    proof {
        lemma_ceil_cbrt_unique(s as int, x as int);
    }
    s
}


proof fn lemma_cube_fold_len(init: Seq<Rgb>, n: int, steps: int, t: int)
    requires
        init.len() <= n,
    ensures
        cube_fold(init, n, steps, t).len() <= n,
        cube_fold(init, n, steps, t).len() >= init.len(),
        cube_fold(init, n, steps, t).subrange(0, init.len() as int) == init,
    decreases t,
{
    if t > 0 {
        lemma_cube_fold_len(init, n, steps, t - 1);
        let p = cube_fold(init, n, steps, t - 1);
        assert(p.push(cube_color(t - 1, steps)).subrange(0, init.len() as int) =~= p.subrange(0, init.len() as int));
    }
}

proof fn lemma_cube_fold_full(init: Seq<Rgb>, n: int, steps: int, t: int, u: int)
    requires
        t <= u,
        cube_fold(init, n, steps, t).len() >= n,
    ensures
        cube_fold(init, n, steps, u) == cube_fold(init, n, steps, t),
    decreases u - t,
{
    if t < u {
        lemma_cube_fold_full(init, n, steps, t, u - 1);
    }
}

proof fn lemma_cube_index(r: int, g: int, b: int, s: int)
    requires
        0 <= r,
        0 <= g < s,
        0 <= b < s,
    ensures
        ((r * s + g) * s + b) / s / s == r,
        (((r * s + g) * s + b) / s) % s == g,
        ((r * s + g) * s + b) % s == b,
{
    let t = (r * s + g) * s + b;
    vstd::arithmetic::div_mod::lemma_fundamental_div_mod_converse(t, s, r * s + g, b);
    vstd::arithmetic::div_mod::lemma_fundamental_div_mod_converse(r * s + g, s, r, g);
}

/// Whether some color of `palette` lies within squared distance 900 of `c`.
fn any_close(palette: &Vec<Rgb>, c: Rgb) -> (r: bool)
    ensures
        r == near_dup(palette@, c),
{
    let mut i: usize = 0;
    while i < palette.len()
        invariant
            i <= palette@.len(),
            forall|j: int| 0 <= j < i ==> !(#[trigger] dist_sq(palette@[j], c) < 900),
        decreases palette.len() - i,
    {
        if palette[i].distance_sq(c) < 900 {
            assert(dist_sq(palette@[i as int], c) < 900);
            return true;
        }
        i += 1;
    }
    false
}

/// Build a full palette of `n` colors (n = 4, 8, 16, 32, 64, 128, 256).
/// Colors 0..8 are always the canonical JAB primaries; beyond 8, the RGB
/// cube is sampled uniformly, skipping samples close to an earlier color.
pub fn build_palette(cc: ColorCount) -> (p: Vec<Rgb>)
    ensures
        p@ == palette_spec(cc.spec_count() as int),
{
    let n = cc.count();
    let mut palette: Vec<Rgb> = Vec::with_capacity(n);
    let first = if n < 8 { n } else { 8 };
    let mut i: usize = 0;
    while i < first
        invariant
            first <= 8,
            i <= first,
            palette@ == base_prefix(i as int),
        decreases first - i,
    {
        palette.push(base_palette_color(i));
        proof {
            assert(palette@ =~= base_prefix(i + 1));
        }
        i += 1;
    }
    if n <= 8 {
        return palette;
    }
    let extra = n - 8;
    let cb = ceil_cbrt(extra);
    let steps = cb + 1;
    let d = if steps - 1 >= 1 { steps - 1 } else { 1 };
    let ghost init = base_prefix(8);
    proof {
        assert(steps == cube_steps(n - 8));
        assert(cb >= 1) by {
            if cb == 0 {
                assert(0 * 0 * 0 == 0);
            }
        }
        assert(steps * steps * steps <= 1331) by (nonlinear_arith)
            requires steps <= 11;
    }
    let mut done = false;
    let mut r: usize = 0;
    while r < steps && !done
        invariant
            n == cc.spec_count(),
            n > 8,
            2 <= steps <= 11,
            d == steps - 1,
            init == base_prefix(8),
            r <= steps,
            !done ==> palette@ == cube_fold(init, n as int, steps as int, r * steps * steps),
            done ==> palette@ == cube_fold(init, n as int, steps as int, steps * steps * steps),
            done ==> palette@.len() >= n,
            palette@.len() <= n,
        decreases (steps - r) * 2 + if done { 0int } else { 1int },
    {
        let mut g: usize = 0;
        while g < steps && !done
            invariant
                n == cc.spec_count(),
                n > 8,
                2 <= steps <= 11,
                d == steps - 1,
                init == base_prefix(8),
                r < steps,
                g <= steps,
                !done ==> palette@ == cube_fold(init, n as int, steps as int, (r * steps + g) * steps),
                done ==> palette@ == cube_fold(init, n as int, steps as int, steps * steps * steps),
                done ==> palette@.len() >= n,
                palette@.len() <= n,
            decreases (steps - g) * 2 + if done { 0int } else { 1int },
        {
            let mut b: usize = 0;
            while b < steps && !done
                invariant
                    n == cc.spec_count(),
                    n > 8,
                    2 <= steps <= 11,
                    d == steps - 1,
                    init == base_prefix(8),
                    r < steps,
                    g < steps,
                    b <= steps,
                    !done ==> palette@ == cube_fold(init, n as int, steps as int, (r * steps + g) * steps + b),
                    done ==> palette@ == cube_fold(init, n as int, steps as int, steps * steps * steps),
                    done ==> palette@.len() >= n,
                    palette@.len() <= n,
                decreases (steps - b) * 2 + if done { 0int } else { 1int },
            {
                let ghost t = (r * steps + g) * steps + b;
                proof {
                    assert(t < steps * steps * steps) by (nonlinear_arith)
                        requires t == (r * steps + g) * steps + b, r < steps, g < steps, b < steps;
                    assert(0 <= t);
                }
                if palette.len() >= n {
                    done = true;
                    proof {
                        lemma_cube_fold_full(init, n as int, steps as int, t, steps * steps * steps);
                    }
                } else {
                    proof {
                        lemma_cube_index(r as int, g as int, b as int, steps as int);
                        assert(r * 255 <= 10 * 255) by (nonlinear_arith)
                            requires r <= 10;
                        assert(r * 255 / (d as int) <= 255) by (nonlinear_arith)
                            requires r <= d, d >= 1;
                        assert(g * 255 / (d as int) <= 255) by (nonlinear_arith)
                            requires g <= d, d >= 1;
                        assert(b * 255 / (d as int) <= 255) by (nonlinear_arith)
                            requires b <= d, d >= 1;
                    }
                    let rv = (r * 255 / d) as u8;
                    let gv = (g * 255 / d) as u8;
                    let bv = (b * 255 / d) as u8;
                    let candidate = Rgb(rv, gv, bv);
                    proof {
                        assert(candidate == cube_color(t, steps as int));
                    }
                    let dup = any_close(&palette, candidate);
                    if !dup {
                        palette.push(candidate);
                    }
                    b += 1;
                }
            }
            if !done {
                proof {
                    assert((r * steps + g) * steps + steps == (r * steps + g + 1) * steps) by (nonlinear_arith);
                }
                g += 1;
            }
        }
        if !done {
            proof {
                assert((r * steps + steps) * steps == (r + 1) * steps * steps) by (nonlinear_arith);
                assert(r * steps * steps == (r * steps + 0) * steps) by (nonlinear_arith);
            }
            r += 1;
        }
    }
    proof {
        if !done {
            assert(r * steps * steps == steps * steps * steps);
        }
    }
    let ghost cubed = palette@;
    let mut gray: u8 = 32;
    while palette.len() < n
        invariant
            n > 8,
            cubed.len() <= n,
            cubed.len() <= palette@.len() <= n,
            palette@ == cubed + Seq::new((palette@.len() - cubed.len()) as nat, |j: int| filler_gray(j)),
            gray == (32 + 13 * (palette@.len() - cubed.len())) % 256,
        decreases n - palette@.len(),
    {
        let ghost j = palette@.len() - cubed.len();
        palette.push(Rgb(gray, gray, gray));
        proof {
            assert(palette@ =~= cubed + Seq::new((j + 1) as nat, |j: int| filler_gray(j)));
        }
        gray = gray.wrapping_add(13);
        proof {
            assert((((32 + 13 * j) % 256) + 13) % 256 == (32 + 13 * (j + 1)) % 256) by (nonlinear_arith);
        }
    }
    palette.truncate(n);
    proof {
        assert(palette@ =~= gray_fill(cubed, n as int));
    }
    palette
}

// ---------------------------------------------------------------------------
// Separation of the palette colors
// ---------------------------------------------------------------------------

/// Every two colors of `p` lie at squared distance 900 or more.
pub open spec fn well_separated(p: Seq<Rgb>) -> bool {
    forall|i: int, j: int| 0 <= i < j < p.len() ==> #[trigger] dist_sq(p[i], p[j]) >= 900
}

/// Two colors that differ by 36 or more in one channel are far apart.
proof fn lemma_channel_gap(a: Rgb, b: Rgb)
    requires
        a.0 - b.0 >= 36 || b.0 - a.0 >= 36 || a.1 - b.1 >= 36 || b.1 - a.1 >= 36 || a.2 - b.2 >= 36 || b.2 - a.2 >= 36,
    ensures
        dist_sq(a, b) >= 1296,
        dist_sq(b, a) >= 1296,
{
    let dr = a.0 - b.0;
    let dg = a.1 - b.1;
    let db = a.2 - b.2;
    assert(dr * dr >= 0 && dg * dg >= 0 && db * db >= 0) by (nonlinear_arith);
    assert(dr * dr >= 1296 || dg * dg >= 1296 || db * db >= 1296) by (nonlinear_arith)
        requires dr >= 36 || -dr >= 36 || dg >= 36 || -dg >= 36 || db >= 36 || -db >= 36;
    assert((-dr) * (-dr) == dr * dr && (-dg) * (-dg) == dg * dg && (-db) * (-db) == db * db) by (nonlinear_arith);
}

/// The canonical primaries are far apart.
proof fn lemma_base_separated(n: int)
    requires
        0 <= n,
    ensures
        well_separated(base_prefix(n)),
{
    let p = base_prefix(n);
    assert forall|i: int, j: int| 0 <= i < j < p.len() implies #[trigger] dist_sq(p[i], p[j]) >= 900 by {
        assert(i == 0 || i == 1 || i == 2 || i == 3 || i == 4 || i == 5 || i == 6);
        assert(j == 1 || j == 2 || j == 3 || j == 4 || j == 5 || j == 6 || j == 7);
        lemma_channel_gap(base_color(i), base_color(j));
    }
}

/// Offering cube candidates keeps a palette far apart: a candidate close to
/// an earlier color is skipped.
proof fn lemma_fold_separated(init: Seq<Rgb>, n: int, steps: int, t: int)
    requires
        well_separated(init),
    ensures
        well_separated(cube_fold(init, n, steps, t)),
    decreases t,
{
    if t > 0 {
        lemma_fold_separated(init, n, steps, t - 1);
        let p = cube_fold(init, n, steps, t - 1);
        let c = cube_color(t - 1, steps);
        if !(p.len() >= n || near_dup(p, c)) {
            let q = p.push(c);
            assert forall|i: int, j: int| 0 <= i < j < q.len() implies #[trigger] dist_sq(q[i], q[j]) >= 900 by {
                if j == p.len() {
                    if dist_sq(p[i], c) < 900 {
                        assert(near_dup(p, c));
                    }
                } else {
                    assert(dist_sq(p[i], p[j]) >= 900);
                }
            }
        }
    }
}

/// Sample levels of the cube are 36 or more apart, 0 at the first and 255
/// at the last, for 3 to 8 levels.
proof fn lemma_level_gap(steps: int, a: int, b: int)
    requires
        3 <= steps <= 8,
        0 <= a < b < steps,
    ensures
        cube_level(b, steps) - cube_level(a, steps) >= 36,
        cube_level(0, steps) == 0,
        cube_level(steps - 1, steps) == 255,
{
    let d = steps - 1;
    let qa = a * 255 / d;
    let qb = b * 255 / d;
    assert(0 <= qa <= 255 && 0 <= qb <= 255) by (nonlinear_arith)
        requires qa == a * 255 / d, qb == b * 255 / d, 0 <= a < b <= d, d >= 2;
    assert(qb - qa >= 36) by (nonlinear_arith)
        requires qa == a * 255 / d, qb == b * 255 / d, 0 <= a < b, 2 <= d <= 7;
    assert(cube_level(a, steps) == qa);
    assert(cube_level(b, steps) == qb);
    assert(d * 255 / d == 255) by (nonlinear_arith)
        requires d >= 2;
}

/// Candidate `t` of the cube in terms of its three sample indices.
proof fn lemma_cube_digits(t: int, s: int)
    requires
        s >= 1,
        t >= 0,
    ensures
        t == ((t / s / s) * s + (t / s) % s) * s + t % s,
        0 <= (t / s) % s < s,
        0 <= t % s < s,
        0 <= t / s / s,
{
    vstd::arithmetic::div_mod::lemma_fundamental_div_mod(t, s);
    vstd::arithmetic::div_mod::lemma_fundamental_div_mod(t / s, s);
    assert(t / s >= 0 && t / s / s >= 0) by (nonlinear_arith)
        requires t >= 0, s >= 1;
    let a = t / s;
    let b = a / s;
    assert(t == (b * s + a % s) * s + t % s) by (nonlinear_arith)
        requires t == s * a + t % s, a == s * b + a % s;
}

/// Two different cube candidates, or a candidate with a middle blue level
/// and a primary, are far apart.
proof fn lemma_cube_apart(u: int, t: int, s: int)
    requires
        3 <= s <= 8,
        0 <= u < t < s * s * s,
    ensures
        dist_sq(cube_color(u, s), cube_color(t, s)) >= 900,
{
    lemma_cube_digits(u, s);
    lemma_cube_digits(t, s);
    assert(t / s / s < s) by (nonlinear_arith)
        requires 0 <= t < s * s * s, s >= 1, t == ((t / s / s) * s + (t / s) % s) * s + t % s,
            0 <= (t / s) % s, 0 <= t % s;
    assert(u / s / s < s) by (nonlinear_arith)
        requires 0 <= u < s * s * s, s >= 1, u == ((u / s / s) * s + (u / s) % s) * s + u % s,
            0 <= (u / s) % s, 0 <= u % s;
    let (ur, ug, ub) = (u / s / s, (u / s) % s, u % s);
    let (tr, tg, tb) = (t / s / s, (t / s) % s, t % s);
    if ur != tr {
        if ur < tr { lemma_level_gap(s, ur, tr); } else { lemma_level_gap(s, tr, ur); }
    } else if ug != tg {
        if ug < tg { lemma_level_gap(s, ug, tg); } else { lemma_level_gap(s, tg, ug); }
    } else if ub != tb {
        if ub < tb { lemma_level_gap(s, ub, tb); } else { lemma_level_gap(s, tb, ub); }
    } else {
        assert(u == t);
    }
    lemma_channel_gap(cube_color(u, s), cube_color(t, s));
}

/// A cube candidate whose blue level is neither the first nor the last is
/// far from every primary.
proof fn lemma_mid_blue_apart(t: int, s: int, i: int)
    requires
        3 <= s <= 8,
        0 <= t,
        1 <= t % s <= s - 2,
        0 <= i < 8,
    ensures
        dist_sq(base_color(i), cube_color(t, s)) >= 900,
{
    let b = t % s;
    lemma_level_gap(s, 0, b);
    lemma_level_gap(s, b, s - 1);
    lemma_channel_gap(base_color(i), cube_color(t, s));
}

/// Number of `u < t` whose blue index is neither the first nor the last.
spec fn mid_count(s: int, t: int) -> nat
    decreases t,
{
    if t <= 0 {
        0
    } else {
        mid_count(s, t - 1) + if 1 <= (t - 1) % s <= s - 2 { 1nat } else { 0nat }
    }
}

/// Each block of `s` candidates holds `s - 2` with a middle blue index.
proof fn lemma_mid_count(s: int, q: int, b: int)
    requires
        s >= 2,
        q >= 0,
        0 <= b <= s,
    ensures
        mid_count(s, q * s + b) == q * (s - 2) + if b <= 1 { 0 } else if b <= s - 1 { b - 1 } else { s - 2 },
    decreases q, b,
{
    if b > 0 {
        lemma_mid_count(s, q, b - 1);
        let x = q * s + (b - 1);
        vstd::arithmetic::div_mod::lemma_fundamental_div_mod_converse(x, s, q, b - 1);
        assert(q * s + b - 1 == x);
        assert(x >= 0) by (nonlinear_arith)
            requires q >= 0, s >= 2, b >= 1, x == q * s + (b - 1);
        assert(mid_count(s, x + 1) == mid_count(s, x) + if 1 <= x % s <= s - 2 { 1nat } else { 0nat });
        assert(x + 1 == q * s + b);
    } else if q > 0 {
        lemma_mid_count(s, q - 1, s);
        assert((q - 1) * s + s == q * s + 0) by (nonlinear_arith);
        assert((q - 1) * (s - 2) + (s - 2) == q * (s - 2)) by (nonlinear_arith);
    } else {
        assert(q * s == 0) by (nonlinear_arith)
            requires q == 0;
    }
}

/// The palette colors past the primaries are cube candidates offered so far.
spec fn from_cube(p: Seq<Rgb>, s: int, t: int) -> bool {
    forall|i: int| #![trigger p[i]] 8 <= i < p.len() ==> exists|u: int| 0 <= u < t && #[trigger] cube_color(u, s) == p[i]
}

/// Offering the candidates of a cube of 3 to 8 levels to the primaries adds
/// one color for each candidate with a middle blue level, until the palette
/// is full.
proof fn lemma_fold_grows(n: int, s: int, t: int)
    requires
        3 <= s <= 8,
        8 <= n,
        0 <= t <= s * s * s,
    ensures
        from_cube(cube_fold(base_prefix(8), n, s, t), s, t),
        cube_fold(base_prefix(8), n, s, t).len() >= (if n <= 8 + mid_count(s, t) { n } else { 8 + mid_count(s, t) as int }),
        cube_fold(base_prefix(8), n, s, t).subrange(0, 8) == base_prefix(8),
    decreases t,
{
    let init = base_prefix(8);
    lemma_cube_fold_len(init, n, s, t);
    if t > 0 {
        lemma_fold_grows(n, s, t - 1);
        let p = cube_fold(init, n, s, t - 1);
        let c = cube_color(t - 1, s);
        let q = cube_fold(init, n, s, t);
        assert forall|i: int| #![trigger q[i]] 8 <= i < q.len() implies exists|u: int| 0 <= u < t && #[trigger] cube_color(u, s) == q[i] by {
            if i < p.len() {
                let u = choose|u: int| 0 <= u < t - 1 && #[trigger] cube_color(u, s) == p[i];
                assert(cube_color(u, s) == q[i]);
            } else {
                assert(cube_color(t - 1, s) == q[i]);
            }
        }
        if 1 <= (t - 1) % s <= s - 2 && p.len() < n {
            assert(!near_dup(p, c)) by {
                assert forall|i: int| 0 <= i < p.len() implies !(#[trigger] dist_sq(p[i], c) < 900) by {
                    if i < 8 {
                        assert(p[i] == p.subrange(0, 8)[i]);
                        lemma_mid_blue_apart(t - 1, s, i);
                    } else {
                        let u = choose|u: int| 0 <= u < t - 1 && #[trigger] cube_color(u, s) == p[i];
                        lemma_cube_apart(u, t - 1, s);
                    }
                }
            }
        }
    }
}

/// The palette of every supported color count has exactly that many colors,
/// and any two of them lie at squared distance 900 or more: no color needs
/// the filler grays.
pub proof fn lemma_palette_separated(cc: ColorCount)
    ensures
        palette_spec(cc.spec_count() as int).len() == cc.spec_count(),
        well_separated(palette_spec(cc.spec_count() as int)),
{
    let n = cc.spec_count() as int;
    lemma_palette_len(cc);
    if n <= 8 {
        lemma_base_separated(n);
    } else {
        let x = n - 8;
        let c = if n == 16 { 2int } else if n == 32 { 3int } else if n == 64 { 4int } else if n == 128 { 5int } else { 7int };
        assert(is_ceil_cbrt(c, x));
        lemma_ceil_cbrt_unique(c, x);
        let s = cube_steps(x);
        assert(s == c + 1);
        assert(s * s * s == (c + 1) * (c + 1) * (c + 1));
        lemma_mid_count(s, s * s, 0);
        assert(s * s * s == (s * s) * s + 0) by (nonlinear_arith);
        assert(mid_count(s, s * s * s) == s * s * (s - 2)) by (nonlinear_arith)
            requires mid_count(s, (s * s) * s + 0) == (s * s) * (s - 2), s * s * s == (s * s) * s + 0;
        lemma_fold_grows(n, s, s * s * s);
        let f = cube_fold(base_prefix(8), n, s, s * s * s);
        lemma_cube_fold_len(base_prefix(8), n, s, s * s * s);
        assert(f.len() == n);
        assert(palette_spec(n) == f);
        lemma_base_separated(8);
        lemma_fold_separated(base_prefix(8), n, s, s * s * s);
    }
}

/// `i` is the first index of `p` whose color is nearest to `obs`.
pub open spec fn is_first_nearest(p: Seq<Rgb>, obs: Rgb, i: int) -> bool {
    &&& 0 <= i < p.len()
    &&& forall|j: int| 0 <= j < p.len() ==> dist_sq(p[i], obs) <= #[trigger] dist_sq(p[j], obs)
    &&& forall|j: int| 0 <= j < i ==> dist_sq(p[i], obs) < #[trigger] dist_sq(p[j], obs)
}

/// The first index of `p` whose color is nearest to `obs`.
pub open spec fn nearest_index(p: Seq<Rgb>, obs: Rgb) -> int {
    choose|i: int| is_first_nearest(p, obs, i)
}

/// The palette index reported for `obs`: the first nearest index (as a
/// byte), or 0 for an empty palette.
pub open spec fn nearest_spec(p: Seq<Rgb>, obs: Rgb) -> u8 {
    if p.len() == 0 { 0 } else { nearest_index(p, obs) as u8 }
}

proof fn lemma_first_nearest_unique(p: Seq<Rgb>, obs: Rgb, i: int)
    requires
        is_first_nearest(p, obs, i),
    ensures
        nearest_index(p, obs) == i,
{
    let j = nearest_index(p, obs);
    assert(is_first_nearest(p, obs, j));
    if j < i {
        assert(dist_sq(p[i], obs) < dist_sq(p[j], obs));
        assert(dist_sq(p[j], obs) <= dist_sq(p[i], obs));
    } else if i < j {
        assert(dist_sq(p[j], obs) < dist_sq(p[i], obs));
        assert(dist_sq(p[i], obs) <= dist_sq(p[j], obs));
    }
}

/// In a palette whose colors are far apart, each color reads back as its
/// own index.
pub proof fn lemma_nearest_palette_color(p: Seq<Rgb>, v: int)
    requires
        well_separated(p),
        0 <= v < p.len() <= 256,
    ensures
        nearest_spec(p, p[v]) == v,
{
    let obs = p[v];
    assert(dist_sq(obs, obs) == 0);
    assert forall|j: int| 0 <= j < p.len() implies dist_sq(p[v], obs) <= #[trigger] dist_sq(p[j], obs) by {
        lemma_dist_sq_bounds(p[j], obs);
    }
    assert forall|j: int| 0 <= j < v implies dist_sq(p[v], obs) < #[trigger] dist_sq(p[j], obs) by {
        assert(dist_sq(p[j], p[v]) >= 900);
    }
    assert(is_first_nearest(p, obs, v));
    lemma_first_nearest_unique(p, obs, v);
}

/// Nearest palette index for an observed RGB value.
pub fn nearest_color(palette: &[Rgb], obs: Rgb) -> (idx: u8)
    ensures
        idx == nearest_spec(palette@, obs),
{
    let mut best_idx: u8 = 0;
    let mut best_dist: u32 = u32::MAX;
    let ghost mut best_i: int = 0;
    let r = obs.0 as i32;
    let g = obs.1 as i32;
    let b = obs.2 as i32;
    let mut i: usize = 0;
    while i < palette.len()
        invariant
            i <= palette@.len(),
            r == obs.0,
            g == obs.1,
            b == obs.2,
            i == 0 ==> best_idx == 0 && best_dist == u32::MAX,
            i > 0 ==> 0 <= best_i < i && best_idx == best_i as u8 && best_dist == dist_sq(palette@[best_i], obs),
            i > 0 ==> forall|j: int| 0 <= j < i ==> dist_sq(palette@[best_i], obs) <= #[trigger] dist_sq(palette@[j], obs),
            i > 0 ==> forall|j: int| 0 <= j < best_i ==> dist_sq(palette@[best_i], obs) < #[trigger] dist_sq(palette@[j], obs),
        decreases palette.len() - i,
    {
        let c = palette[i];
        proof {
            lemma_dist_sq_bounds(c, obs);
        }
        let dr = c.0 as i32 - r;
        let dg = c.1 as i32 - g;
        let db = c.2 as i32 - b;
        proof {
            assert(0 <= dr * dr <= 255 * 255) by (nonlinear_arith)
                requires -255 <= dr <= 255;
            assert(0 <= dg * dg <= 255 * 255) by (nonlinear_arith)
                requires -255 <= dg <= 255;
            assert(0 <= db * db <= 255 * 255) by (nonlinear_arith)
                requires -255 <= db <= 255;
        }
        let d = (dr * dr + dg * dg + db * db) as u32;
        proof {
            assert(d == dist_sq(c, obs));
        }
        if d < best_dist {
            best_dist = d;
            best_idx = i as u8;
            proof {
                best_i = i as int;
            }
            if d == 0 {
                proof {
                    assert(is_first_nearest(palette@, obs, best_i)) by {
                        assert forall|j: int| 0 <= j < palette@.len() implies dist_sq(palette@[best_i], obs) <= #[trigger] dist_sq(palette@[j], obs) by {
                            lemma_dist_sq_bounds(palette@[j], obs);
                        }
                    }
                    lemma_first_nearest_unique(palette@, obs, best_i);
                }
                return best_idx;
            }
        }
        i += 1;
    }
    proof {
        if palette@.len() > 0 {
            lemma_first_nearest_unique(palette@, obs, best_i);
        }
    }
    best_idx
}


/// A palette built for a color count has that many colors, the first (up to
/// eight) being the canonical primaries.
pub proof fn lemma_palette_len(cc: ColorCount)
    ensures
        palette_spec(cc.spec_count() as int).len() == cc.spec_count(),
        forall|i: int| 0 <= i < 8 && i < cc.spec_count() ==> #[trigger] palette_spec(cc.spec_count() as int)[i] == base_color(i),
{
    let n = cc.spec_count() as int;
    if n > 8 {
        let steps = cube_steps(n - 8);
        lemma_cube_fold_len(base_prefix(8), n, steps, steps * steps * steps);
        let c = cube_fold(base_prefix(8), n, steps, steps * steps * steps);
        assert forall|i: int| 0 <= i < 8 implies #[trigger] palette_spec(n)[i] == base_color(i) by {
            assert(c.subrange(0, 8)[i] == c[i]);
            if c.len() < n {
                assert(gray_fill(c, n)[i] == c[i]);
            }
        }
    }
}

/// The canonical JAB primaries lead every palette: for each supported color
/// count, the first (up to) eight colors are black, cyan, magenta, yellow,
/// red, green, blue and white, in that order.
pub proof fn lemma_palette_primaries(cc: ColorCount, i: int)
    requires
        0 <= i < 8,
        i < cc.spec_count(),
    ensures
        palette_spec(cc.spec_count() as int)[i] == seq![
            Rgb(0, 0, 0),
            Rgb(0, 255, 255),
            Rgb(255, 0, 255),
            Rgb(255, 255, 0),
            Rgb(255, 0, 0),
            Rgb(0, 255, 0),
            Rgb(0, 0, 255),
            Rgb(255, 255, 255),
        ][i],
{
    lemma_palette_len(cc);
    assert(palette_spec(cc.spec_count() as int)[i] == base_color(i));
}

/// Some index among the first `n` of `p` is the first nearest to `obs` there.
proof fn lemma_first_nearest_prefix(p: Seq<Rgb>, obs: Rgb, n: int) -> (i: int)
    requires
        1 <= n <= p.len(),
    ensures
        0 <= i < n,
        forall|j: int| 0 <= j < n ==> dist_sq(p[i], obs) <= #[trigger] dist_sq(p[j], obs),
        forall|j: int| 0 <= j < i ==> dist_sq(p[i], obs) < #[trigger] dist_sq(p[j], obs),
    decreases n,
{
    if n == 1 {
        0
    } else {
        let b = lemma_first_nearest_prefix(p, obs, n - 1);
        if dist_sq(p[n - 1], obs) < dist_sq(p[b], obs) {
            n - 1
        } else {
            b
        }
    }
}

/// Classification picks the palette color closest to the observed color in
/// squared Euclidean RGB distance, the first such color on a tie.
pub proof fn lemma_nearest_is_closest(p: Seq<Rgb>, obs: Rgb)
    requires
        1 <= p.len() <= 256,
    ensures ({
        let d = |c: Rgb| (c.0 - obs.0) * (c.0 - obs.0) + (c.1 - obs.1) * (c.1 - obs.1) + (c.2 - obs.2) * (c.2 - obs.2);
        let r = nearest_spec(p, obs) as int;
        &&& 0 <= r < p.len()
        &&& forall|j: int| 0 <= j < p.len() ==> d(p[r]) <= #[trigger] d(p[j])
        &&& forall|j: int| 0 <= j < r ==> d(p[r]) < #[trigger] d(p[j])
    }),
{
    let i = lemma_first_nearest_prefix(p, obs, p.len() as int);
    assert(is_first_nearest(p, obs, i));
    lemma_first_nearest_unique(p, obs, i);
    assert(nearest_spec(p, obs) as int == i);
    let d = |c: Rgb| (c.0 - obs.0) * (c.0 - obs.0) + (c.1 - obs.1) * (c.1 - obs.1) + (c.2 - obs.2) * (c.2 - obs.2);
    assert forall|j: int| 0 <= j < p.len() implies d(p[i]) <= #[trigger] d(p[j]) by {
        assert(dist_sq(p[i], obs) <= dist_sq(p[j], obs));
    }
    assert forall|j: int| 0 <= j < i implies d(p[i]) < #[trigger] d(p[j]) by {
        assert(dist_sq(p[i], obs) < dist_sq(p[j], obs));
    }
}
} // verus!
