use vstd::prelude::*;
use crate::error::JabError;

verus! {

/// Number of colors in the palette of a symbol; a module carries
/// `log2(count)` bits.
#[derive(Debug, Clone, Copy, PartialEq, Eq, Structural)]
pub enum ColorCount {
    C4,
    C8,
    C16,
    C32,
    C64,
    C128,
    C256,
}

/// The color counts that name a palette.
pub open spec fn is_color_count(n: int) -> bool {
    n == 4 || n == 8 || n == 16 || n == 32 || n == 64 || n == 128 || n == 256
}

impl ColorCount {
    /// Number of palette colors.
    pub open spec fn spec_count(self) -> nat {
        match self {
            ColorCount::C4 => 4,
            ColorCount::C8 => 8,
            ColorCount::C16 => 16,
            ColorCount::C32 => 32,
            ColorCount::C64 => 64,
            ColorCount::C128 => 128,
            ColorCount::C256 => 256,
        }
    }

    /// Bits carried by one module: the base-2 logarithm of the count.
    pub open spec fn spec_bpm(self) -> nat {
        match self {
            ColorCount::C4 => 2,
            ColorCount::C8 => 3,
            ColorCount::C16 => 4,
            ColorCount::C32 => 5,
            ColorCount::C64 => 6,
            ColorCount::C128 => 7,
            ColorCount::C256 => 8,
        }
    }

    /// Parses a color count; every other number is refused.
    pub fn from_u32(n: u32) -> (r: Result<Self, JabError>)
        ensures
            r is Ok <==> is_color_count(n as int),
            r matches Ok(c) ==> c.spec_count() == n,
            r matches Err(e) ==> e == JabError::InvalidColorCount(n),
    {
        match n {
            4 => Ok(ColorCount::C4),
            8 => Ok(ColorCount::C8),
            16 => Ok(ColorCount::C16),
            32 => Ok(ColorCount::C32),
            64 => Ok(ColorCount::C64),
            128 => Ok(ColorCount::C128),
            256 => Ok(ColorCount::C256),
            _ => Err(JabError::InvalidColorCount(n)),
        }
    }

    /// Bits per module, `log2(count)`.
    pub fn bits_per_module(self) -> (r: u8)
        ensures
            r == self.spec_bpm(),
    {
        match self {
            ColorCount::C4 => 2,
            ColorCount::C8 => 3,
            ColorCount::C16 => 4,
            ColorCount::C32 => 5,
            ColorCount::C64 => 6,
            ColorCount::C128 => 7,
            ColorCount::C256 => 8,
        }
    }

    /// Number of palette colors.
    pub fn count(self) -> (r: usize)
        ensures
            r == self.spec_count(),
    {
        match self {
            ColorCount::C4 => 4,
            ColorCount::C8 => 8,
            ColorCount::C16 => 16,
            ColorCount::C32 => 32,
            ColorCount::C64 => 64,
            ColorCount::C128 => 128,
            ColorCount::C256 => 256,
        }
    }
}

/// A module carries exactly `log2(count)` bits: `2^bpm == count`, with
/// `2 <= bpm <= 8`.
pub proof fn lemma_bpm_is_log2_of_count(c: ColorCount)
    ensures
        vstd::arithmetic::power2::pow2(c.spec_bpm()) == c.spec_count(),
        2 <= c.spec_bpm() <= 8,
        is_color_count(c.spec_count() as int),
{
    vstd::arithmetic::power2::lemma2_to64();
}

/// Strength of the LDPC error correction. A higher level spends more of
/// the symbol on parity.
#[derive(Debug, Clone, Copy, PartialEq, Eq, Structural)]
pub enum EccLevel {
    /// Code rate 3/4.
    Low,
    /// Code rate 1/2.
    Medium,
    /// Code rate 1/3.
    High,
    /// Code rate 1/4.
    Ultra,
}

impl EccLevel {
    /// Code rate as (data numerator, total denominator).
    pub open spec fn spec_rate(self) -> (nat, nat) {
        match self {
            EccLevel::Low => (3, 4),
            EccLevel::Medium => (1, 2),
            EccLevel::High => (1, 3),
            EccLevel::Ultra => (1, 4),
        }
    }

    /// Returns (data_numerator, total_denominator) for the code rate.
    pub fn rate(self) -> (r: (usize, usize))
        ensures
            r.0 == self.spec_rate().0,
            r.1 == self.spec_rate().1,
    {
        match self {
            EccLevel::Low => (3, 4),
            EccLevel::Medium => (1, 2),
            EccLevel::High => (1, 3),
            EccLevel::Ultra => (1, 4),
        }
    }

    /// Encoded length in bits for `data_bits` input bits.
    pub fn encoded_len_bits(self, data_bits: usize) -> (r: usize)
        requires
            data_bits * self.spec_rate().1 <= usize::MAX,
        ensures
            r == data_bits * self.spec_rate().1 / (self.spec_rate().0 as int),
    {
        let (num, den) = self.rate();
        data_bits * den / num
    }
}

/// The color count for a number given by a foreign caller: a valid count as
/// such, any other number 8 colors.
pub fn color_count(n: u32) -> (cc: ColorCount)
    ensures
        is_color_count(n as int) ==> cc.spec_count() == n,
        !is_color_count(n as int) ==> cc == ColorCount::C8,
{
    match ColorCount::from_u32(n) {
        Ok(c) => c,
        Err(_) => ColorCount::C8,
    }
}

/// The error correction level for a number given by a foreign caller:
/// 0 low, 1 medium, 2 high, 3 ultra, any other number medium.
pub fn ecc_level(n: u32) -> (e: EccLevel)
    ensures
        e == (if n == 0 {
            EccLevel::Low
        } else if n == 2 {
            EccLevel::High
        } else if n == 3 {
            EccLevel::Ultra
        } else {
            EccLevel::Medium
        }),
{
    match n {
        0 => EccLevel::Low,
        1 => EccLevel::Medium,
        2 => EccLevel::High,
        3 => EccLevel::Ultra,
        _ => EccLevel::Medium,
    }
}

/// Settings shared by the encoder and the decoder.
#[derive(Debug, Clone)]
pub struct JabConfig {
    /// Number of distinct colors per module.
    pub colors: ColorCount,
    /// Error correction level.
    pub ecc: EccLevel,
    /// Maximum number of symbols (master and slaves); 0 chooses automatically.
    pub max_symbols: usize,
    /// Side of one module in pixels, for rendering and sampling.
    pub module_size: u32,
    /// Whether GPU acceleration is wanted where available.
    pub use_gpu: bool,
}

impl Default for JabConfig {
    fn default() -> (r: Self)
        ensures
            r.colors == ColorCount::C8,
            r.ecc == EccLevel::Medium,
            r.max_symbols == 0,
            r.module_size == 4,
            r.use_gpu == false,
    {
        JabConfig {
            colors: ColorCount::C8,
            ecc: EccLevel::Medium,
            max_symbols: 0,
            module_size: 4,
            use_gpu: false,
        }
    }
}

/// Modules of a `side × side` symbol that are counted as usable, 85% of all.
pub open spec fn usable_estimate(side: nat) -> nat {
    side * side * 85 / 100
}

/// Payload bytes that a `side × side` symbol holds under `bpm` bits per
/// module and code rate `num / den`.
pub open spec fn capacity_spec(side: nat, bpm: nat, num: nat, den: nat) -> nat {
    usable_estimate(side) * bpm * num / den / 8
}

impl JabConfig {
    /// A configuration with the given palette and error correction and the
    /// default for everything else.
    pub fn new(colors: ColorCount, ecc: EccLevel) -> (r: Self)
        ensures
            r.colors == colors,
            r.ecc == ecc,
            r.max_symbols == 0,
            r.module_size == 4,
            r.use_gpu == false,
    {
        JabConfig { colors, ecc, max_symbols: 0, module_size: 4, use_gpu: false }
    }

    /// Maximum raw data bytes of one square symbol with `side` modules per side.
    pub fn capacity_bytes(&self, side: usize) -> (r: usize)
        requires
            side * side * 85 <= usize::MAX,
            usable_estimate(side as nat) * 8 * 3 <= usize::MAX,
        ensures
            r == capacity_spec(
                side as nat,
                self.colors.spec_bpm(),
                self.ecc.spec_rate().0,
                self.ecc.spec_rate().1,
            ),
    {
        let bpm = self.colors.bits_per_module() as usize;
        let (num, den) = self.ecc.rate();
        let sq = side * side;
        let usable = sq * 85 / 100;
        proof {
            assert(usable * bpm <= usable * 8) by (nonlinear_arith)
                requires bpm <= 8;
            assert(usable * bpm * num <= usable * 8 * 3) by (nonlinear_arith)
                requires bpm <= 8, num <= 3;
        }
        usable * bpm * num / den / 8
    }
}

/// More colors never hold fewer bytes: for a fixed symbol side and error
/// correction, the capacity grows with the bits per module.
pub proof fn lemma_capacity_grows_with_colors(side: nat, a: ColorCount, b: ColorCount, ecc: EccLevel)
    requires
        a.spec_bpm() <= b.spec_bpm(),
    ensures
        capacity_spec(side, a.spec_bpm(), ecc.spec_rate().0, ecc.spec_rate().1)
            <= capacity_spec(side, b.spec_bpm(), ecc.spec_rate().0, ecc.spec_rate().1),
{
    let u = usable_estimate(side);
    let (num, den) = ecc.spec_rate();
    let x = u * a.spec_bpm() * num;
    let y = u * b.spec_bpm() * num;
    assert(x <= y) by (nonlinear_arith)
        requires x == u * a.spec_bpm() * num, y == u * b.spec_bpm() * num, a.spec_bpm() <= b.spec_bpm();
    assert(x / den <= y / den) by (nonlinear_arith)
        requires x <= y, den > 0;
    assert(x / den / 8 <= y / den / 8) by (nonlinear_arith)
        requires x / den <= y / den;
}

} // verus!
