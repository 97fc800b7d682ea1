use vstd::prelude::*;

verus! {

// ---------------------------------------------------------------------------
// Bits of machine words
// ---------------------------------------------------------------------------

/// Bit `j` (counted from the least significant) of a 64-bit word.
pub open spec fn u64_bit(w: u64, j: int) -> bool {
    0 <= j < 64 && (w >> (j as u64)) & 1 == 1
}

/// Bit `j` (counted from the least significant) of a byte.
pub open spec fn u8_bit(b: u8, j: int) -> bool {
    0 <= j < 8 && (b >> (j as u8)) & 1 == 1
}

/// Bit `i` of a little-endian sequence of 64-bit words; false past the end.
pub open spec fn words_bit(words: Seq<u64>, i: int) -> bool {
    0 <= i < 64 * words.len() && u64_bit(words[i / 64], i % 64)
}

/// Element `i` of a bit sequence, false outside it.
pub open spec fn bit_at(s: Seq<bool>, i: int) -> bool {
    0 <= i < s.len() && s[i]
}

/// The bits of a byte sequence, least significant bit of each byte first.
pub open spec fn unpack_bytes(bytes: Seq<u8>) -> Seq<bool> {
    Seq::new(8 * bytes.len(), |i: int| u8_bit(bytes[i / 8], i % 8))
}

/// The number whose binary digits, least significant first, are `f(lo)`,
/// `f(lo + 1)`, ..., `f(lo + n - 1)`.
pub open spec fn value_of_bits(f: spec_fn(int) -> bool, lo: int, n: nat) -> nat
    decreases n,
{
    if n == 0 {
        0
    } else {
        (if f(lo) { 1nat } else { 0nat }) + 2 * value_of_bits(f, lo + 1, (n - 1) as nat)
    }
}

/// The number whose binary digits, least significant first, are the `count`
/// bits of `s` from position `start` on (bits outside `s` count as 0).
pub open spec fn bits_value(s: Seq<bool>, start: int, count: nat) -> nat {
    value_of_bits(|i: int| bit_at(s, i), start, count)
}

/// The value depends only on the digits it reads.
pub proof fn lemma_value_of_bits_congruent(f: spec_fn(int) -> bool, g: spec_fn(int) -> bool, lo: int, n: nat)
    requires
        forall|i: int| #![trigger f(i)] lo <= i < lo + n ==> f(i) == g(i),
    ensures
        value_of_bits(f, lo, n) == value_of_bits(g, lo, n),
    decreases n,
{
    if n > 0 {
        lemma_value_of_bits_congruent(f, g, lo + 1, (n - 1) as nat);
    }
}

/// `n` binary digits make a number below `2^n`.
pub proof fn lemma_value_of_bits_bound(f: spec_fn(int) -> bool, lo: int, n: nat)
    ensures
        value_of_bits(f, lo, n) < vstd::arithmetic::power2::pow2(n),
    decreases n,
{
    if n == 0 {
        vstd::arithmetic::power2::lemma2_to64();
    } else {
        lemma_value_of_bits_bound(f, lo + 1, (n - 1) as nat);
        vstd::arithmetic::power2::lemma_pow2_unfold(n);
    }
}

/// The value depends only on the digits, not on where they are read from.
pub proof fn lemma_value_of_bits_shift(f: spec_fn(int) -> bool, g: spec_fn(int) -> bool, lo: int, lo2: int, n: nat)
    requires
        forall|i: int| #![trigger f(lo + i)] 0 <= i < n ==> f(lo + i) == g(lo2 + i),
    ensures
        value_of_bits(f, lo, n) == value_of_bits(g, lo2, n),
    decreases n,
{
    if n > 0 {
        assert(f(lo + 0) == g(lo2 + 0));
        assert forall|i: int| #![trigger f((lo + 1) + i)] 0 <= i < n - 1 implies f((lo + 1) + i) == g((lo2 + 1) + i) by {
            assert(f(lo + (i + 1)) == g(lo2 + (i + 1)));
            assert((lo + 1) + i == lo + (i + 1));
        }
        lemma_value_of_bits_shift(f, g, lo + 1, lo2 + 1, (n - 1) as nat);
    }
}

/// Zero digits at the top do not change the value.
pub proof fn lemma_value_of_bits_zero_tail(f: spec_fn(int) -> bool, lo: int, nb: nat, n: nat)
    requires
        nb <= n,
        forall|i: int| #![trigger f(i)] lo + nb <= i < lo + n ==> !f(i),
    ensures
        value_of_bits(f, lo, n) == value_of_bits(f, lo, nb),
    decreases nb, n,
{
    if nb > 0 {
        lemma_value_of_bits_zero_tail(f, lo + 1, (nb - 1) as nat, (n - 1) as nat);
    } else if n > 0 {
        lemma_value_of_bits_zero_tail(f, lo + 1, 0, (n - 1) as nat);
    }
}

/// A word whose bits are `f(lo)`, ..., `f(lo + n - 1)` (and zero above) has
/// the value of those digits.
pub proof fn lemma_u64_value(x: u64, f: spec_fn(int) -> bool, lo: int, n: nat)
    requires
        n <= 64,
        forall|j: int| 0 <= j < 64 ==> u64_bit(x, j) == (j < n && f(lo + j)),
    ensures
        x as nat == value_of_bits(f, lo, n),
    decreases n,
{
    if n == 0 {
        assert forall|j: int| 0 <= j < 64 implies !u64_bit(x, j) by {}
        assert(x == 0) by {
            lemma_u64_zero_from_bits(x);
        }
    } else {
        let y = x >> 1u64;
        assert(x == (x & 1) + 2 * (x >> 1u64)) by (bit_vector);
        assert forall|j: int| 0 <= j < 64 implies u64_bit(y, j) == (j < n - 1 && f(lo + 1 + j)) by {
            let jj = j as u64;
            if j < 63 {
                assert(((x >> 1u64) >> jj) & 1 == (x >> (jj + 1) as u64) & 1) by (bit_vector)
                    requires jj < 63;
                assert(u64_bit(x, j + 1) == (j + 1 < n && f(lo + (j + 1))));
                assert(lo + (j + 1) == lo + 1 + j);
            } else {
                assert(!(((x >> 1u64) >> 63u64) & 1 == 1)) by (bit_vector);
            }
        }
        lemma_u64_value(y, f, lo + 1, (n - 1) as nat);
        assert(u64_bit(x, 0) == f(lo));
        assert((x & 1 == 1) == ((x >> 0u64) & 1 == 1)) by (bit_vector);
        assert(x & 1 == 0 || x & 1 == 1) by (bit_vector);
    }
}

proof fn lemma_u64_zero_from_bits(x: u64)
    requires
        forall|j: int| 0 <= j < 64 ==> !u64_bit(x, j),
    ensures
        x == 0,
{
    assert forall|j: u64| j < 64 implies (x >> j) & 1 == 0 by {
        assert(!u64_bit(x, j as int));
        assert((x >> j) & 1 == 0 || (x >> j) & 1 == 1) by (bit_vector);
    }
    assert(x == 0) by {
        if x != 0 {
            let k = lemma_u64_some_bit(x);
            assert((x >> k) & 1 == 0);
        }
    }
}

proof fn lemma_u64_some_bit(x: u64) -> (k: u64)
    requires
        x != 0,
    ensures
        k < 64,
        (x >> k) & 1 == 1,
{
    let t = x.trailing_zeros();
    vstd::std_specs::bits::axiom_u64_trailing_zeros(x);
    t as u64
}

/// The bits packed into bytes, eight per byte, least significant first; the
/// last byte is padded with zero bits.
pub open spec fn pack_bits(s: Seq<bool>) -> Seq<u8> {
    Seq::new((s.len() + 7) / 8, |i: int| bits_value(s, 8 * i, 8) as u8)
}

/// The `count` low bits of `value`, least significant first.
pub open spec fn low_bits(value: u64, count: nat) -> Seq<bool> {
    Seq::new(count, |j: int| u64_bit(value, j))
}

// ---------------------------------------------------------------------------
// Bit-vector facts
// ---------------------------------------------------------------------------

proof fn lemma_or_bit(a: u64, b: u64, j: u64)
    requires
        j < 64,
    ensures
        ((a | b) >> j) & 1 == 1 <==> ((a >> j) & 1 == 1 || (b >> j) & 1 == 1),
{
    assert(((a | b) >> j) & 1 == 1 <==> ((a >> j) & 1 == 1 || (b >> j) & 1 == 1)) by (bit_vector)
        requires j < 64;
}

proof fn lemma_shl_bit(v: u64, s: u64, j: u64)
    requires
        s < 64,
        j < 64,
    ensures
        ((v << s) >> j) & 1 == 1 <==> (j >= s && (v >> (j - s) as u64) & 1 == 1),
{
    assert(((v << s) >> j) & 1 == 1 <==> (j >= s && (v >> (j - s) as u64) & 1 == 1)) by (bit_vector)
        requires s < 64, j < 64;
}

proof fn lemma_shr_bit(v: u64, s: u64, j: u64)
    requires
        s < 64,
        j < 64,
    ensures
        ((v >> s) >> j) & 1 == 1 <==> (j + s < 64 && (v >> (j + s) as u64) & 1 == 1),
{
    assert(((v >> s) >> j) & 1 == 1 <==> (j + s < 64 && (v >> (j + s) as u64) & 1 == 1)) by (bit_vector)
        requires s < 64, j < 64;
}

proof fn lemma_and_bit(a: u64, b: u64, j: u64)
    requires
        j < 64,
    ensures
        ((a & b) >> j) & 1 == 1 <==> ((a >> j) & 1 == 1 && (b >> j) & 1 == 1),
{
    assert(((a & b) >> j) & 1 == 1 <==> ((a >> j) & 1 == 1 && (b >> j) & 1 == 1)) by (bit_vector)
        requires j < 64;
}

proof fn lemma_zero_bits(j: u64)
    requires
        j < 64,
    ensures
        !((0u64 >> j) & 1 == 1),
{
    lemma_zero_shifts();
}

/// No bit of zero is set, at any width.
pub proof fn lemma_zero_shifts()
    by (bit_vector)
    ensures
        forall|j: u8| #![trigger 0u8 >> j] !((0u8 >> j) & 1 == 1),
        forall|j: u16| #![trigger 0u16 >> j] !((0u16 >> j) & 1 == 1),
        forall|j: u64| #![trigger 0u64 >> j] !((0u64 >> j) & 1 == 1),
{
}

/// Widening a byte or a 16-bit word to a word keeps its bits and adds none.
pub proof fn lemma_widen_bits()
    by (bit_vector)
    ensures
        forall|b: u8, j: u64| #![trigger (b as u64) >> j] j < 64 ==>
            ((((b as u64) >> j) & 1 == 1) <==> (j < 8 && (b >> (j as u8)) & 1 == 1)),
        forall|x: u16, j: u64| #![trigger (x as u64) >> j] j < 64 ==>
            ((((x as u64) >> j) & 1 == 1) <==> (j < 16 && (x >> (j as u16)) & 1 == 1)),
{
}

/// Setting bit `sh` of a byte sets that bit and keeps the others.
pub proof fn lemma_u8_set_bit()
    by (bit_vector)
    ensures
        forall|byte: u8, sh: u8, jj: u8| #![trigger (byte | (1u8 << sh)) >> jj] sh < 8 && jj < 8 ==>
            ((((byte | (1u8 << sh)) >> jj) & 1 == 1) == (jj == sh || (byte >> jj) & 1 == 1)),
{
}

/// Bit `j` of a word truncated to a byte is bit `j` of the word, for `j < 8`.
pub proof fn lemma_u8_cast_bit(x: u64, j: u64)
    requires
        j < 8,
    ensures
        (((x as u8) >> (j as u8)) & 1 == 1) <==> ((x >> j) & 1 == 1),
{
    assert((((x as u8) >> (j as u8)) & 1 == 1) <==> ((x >> j) & 1 == 1)) by (bit_vector)
        requires j < 8;
}

/// Bit `j` of a byte widened to a word is bit `j` of the byte; the word has
/// no bit at 8 or above.
pub proof fn lemma_u8_widen_bit(b: u8, j: u64)
    requires
        j < 64,
    ensures
        (((b as u64) >> j) & 1 == 1) <==> (j < 8 && (b >> (j as u8)) & 1 == 1),
{
    lemma_widen_bits();
}

/// A byte is determined by its eight bits.
pub proof fn lemma_u8_bits_eq(a: u8, b: u8)
    requires
        forall|j: int| 0 <= j < 8 ==> u8_bit(a, j) == u8_bit(b, j),
    ensures
        a == b,
{
    assert(u8_bit(a, 0) == u8_bit(b, 0));
    assert(u8_bit(a, 1) == u8_bit(b, 1));
    assert(u8_bit(a, 2) == u8_bit(b, 2));
    assert(u8_bit(a, 3) == u8_bit(b, 3));
    assert(u8_bit(a, 4) == u8_bit(b, 4));
    assert(u8_bit(a, 5) == u8_bit(b, 5));
    assert(u8_bit(a, 6) == u8_bit(b, 6));
    assert(u8_bit(a, 7) == u8_bit(b, 7));
    assert(a == b) by (bit_vector)
        requires
            ((a >> 0u8) & 1 == 1) == ((b >> 0u8) & 1 == 1),
            ((a >> 1u8) & 1 == 1) == ((b >> 1u8) & 1 == 1),
            ((a >> 2u8) & 1 == 1) == ((b >> 2u8) & 1 == 1),
            ((a >> 3u8) & 1 == 1) == ((b >> 3u8) & 1 == 1),
            ((a >> 4u8) & 1 == 1) == ((b >> 4u8) & 1 == 1),
            ((a >> 5u8) & 1 == 1) == ((b >> 5u8) & 1 == 1),
            ((a >> 6u8) & 1 == 1) == ((b >> 6u8) & 1 == 1),
            ((a >> 7u8) & 1 == 1) == ((b >> 7u8) & 1 == 1),
    ;
}

/// A byte whose bits are the `count <= 8` bits of `s` from `start` on (and
/// zero above) has the value of those bits.
pub proof fn lemma_u8_value(x: u8, s: Seq<bool>, start: int, count: nat)
    requires
        count <= 8,
        forall|j: int| 0 <= j < 8 ==> u8_bit(x, j) == (j < count && bit_at(s, start + j)),
    ensures
        x as nat == bits_value(s, start, count),
    decreases count,
{
    if count == 0 {
        assert forall|j: int| 0 <= j < 8 implies u8_bit(x, j) == u8_bit(0u8, j) by {
            let jj = j as u8;
            lemma_zero_shifts();
        }
        lemma_u8_bits_eq(x, 0u8);
    } else {
        let y = x >> 1u8;
        assert(x == (x & 1) + 2 * (x >> 1u8)) by (bit_vector);
        assert forall|j: int| 0 <= j < 8 implies u8_bit(y, j) == (j < count - 1 && bit_at(s, start + 1 + j)) by {
            let jj = j as u8;
            if j < 7 {
                assert(((x >> 1u8) >> jj) & 1 == (x >> (jj + 1) as u8) & 1) by (bit_vector)
                    requires jj < 7;
                assert(u8_bit(x, j + 1) == (j + 1 < count && bit_at(s, start + (j + 1))));
                assert(start + (j + 1) == start + 1 + j);
            } else {
                assert(!(((x >> 1u8) >> 7u8) & 1 == 1)) by (bit_vector);
            }
        }
        lemma_u8_value(y, s, start + 1, (count - 1) as nat);
        assert(u8_bit(x, 0) == bit_at(s, start));
        assert((x & 1 == 1) == ((x >> 0u8) & 1 == 1)) by (bit_vector);
        assert(x & 1 == 0 || x & 1 == 1) by (bit_vector);
    }
}

/// The value of `count <= 8` bits of `s` from `start` on, as a byte, has
/// those bits as its low bits and zero above.
pub proof fn lemma_bits_value_byte(s: Seq<bool>, start: int, count: nat)
    requires
        count <= 8,
    ensures
        bits_value(s, start, count) < 256,
        forall|j: int| 0 <= j < 8 ==> #[trigger] u8_bit(bits_value(s, start, count) as u8, j) == (j < count && bit_at(s, start + j)),
{
    let b = |j: int| if j < count && bit_at(s, start + j) { 1u8 } else { 0u8 };
    let (b0, b1, b2, b3, b4, b5, b6, b7) = (b(0), b(1), b(2), b(3), b(4), b(5), b(6), b(7));
    let c: u8 = (b0 | (b1 << 1u8) | (b2 << 2u8) | (b3 << 3u8) | (b4 << 4u8) | (b5 << 5u8) | (b6 << 6u8) | (b7 << 7u8));
    assert forall|j: int| 0 <= j < 8 implies u8_bit(c, j) == (j < count && bit_at(s, start + j)) by {
        let jj = j as u8;
        assert(((((b0 | (b1 << 1u8) | (b2 << 2u8) | (b3 << 3u8) | (b4 << 4u8) | (b5 << 5u8) | (b6 << 6u8) | (b7 << 7u8)) >> jj) & 1) == 1) == (
            (jj == 0 && b0 == 1) || (jj == 1 && b1 == 1) || (jj == 2 && b2 == 1) || (jj == 3 && b3 == 1)
            || (jj == 4 && b4 == 1) || (jj == 5 && b5 == 1) || (jj == 6 && b6 == 1) || (jj == 7 && b7 == 1))) by (bit_vector)
            requires
                jj < 8,
                b0 <= 1, b1 <= 1, b2 <= 1, b3 <= 1, b4 <= 1, b5 <= 1, b6 <= 1, b7 <= 1;
    }
    lemma_u8_value(c, s, start, count);
}

/// The mask of the `count` low bits of a word.
fn low_mask(count: u8) -> (r: u64)
    requires
        count <= 64,
    ensures
        forall|j: int| 0 <= j < 64 ==> (u64_bit(r, j) <==> j < count),
{
    let r = if count == 64 {
        u64::MAX
    } else {
        let c = count as u64;
        assert(1u64 << c >= 1) by (bit_vector)
            requires c < 64;
        (1u64 << c) - 1
    };
    assert forall|j: int| 0 <= j < 64 implies (u64_bit(r, j) <==> j < count) by {
        let jj = j as u64;
        let c = count as u64;
        if count == 64 {
            assert((0xffff_ffff_ffff_ffffu64 >> jj) & 1 == 1) by (bit_vector)
                requires jj < 64;
        } else {
            assert((((1u64 << c) - 1) as u64 >> jj) & 1 == 1 <==> jj < c) by (bit_vector)
                requires jj < 64, c < 64;
            assert(r == ((1u64 << c) - 1) as u64);
        }
    }
    r
}

// ---------------------------------------------------------------------------
// The buffer
// ---------------------------------------------------------------------------

/// Bit buffer for packing and unpacking groups of N bits, stored little-endian
/// in 64-bit words.
pub struct BitBuf {
    data: Vec<u64>,
    bit_len: usize,
}

impl BitBuf {
    /// The storage words.
    pub closed spec fn words(self) -> Seq<u64> {
        self.data@
    }

    /// The number of bits held.
    pub closed spec fn spec_len(self) -> nat {
        self.bit_len as nat
    }

    /// Bit `i` of the storage (false past the last word).
    pub open spec fn bit(self, i: int) -> bool {
        words_bit(self.words(), i)
    }

    /// Every held bit lies inside the storage words.
    pub open spec fn covered(self) -> bool {
        self.spec_len() <= 64 * self.words().len()
    }

    /// No stored bit is set at or past the length.
    pub open spec fn clean(self) -> bool {
        forall|i: int| i >= self.spec_len() ==> !#[trigger] self.bit(i)
    }

    /// A buffer as the builders leave it: covered and clean.
    pub open spec fn wf(self) -> bool {
        self.covered() && self.clean()
    }
}

impl View for BitBuf {
    type V = Seq<bool>;

    /// The held bits, in order.
    open spec fn view(&self) -> Seq<bool> {
        Seq::new(self.spec_len(), |i: int| self.bit(i))
    }
}

impl Default for BitBuf {
    fn default() -> (r: Self)
        ensures
            r.wf(),
            r@ == Seq::<bool>::empty(),
            r.words() == Seq::<u64>::empty(),
    {
        BitBuf { data: Vec::new(), bit_len: 0 }
    }
}

impl BitBuf {
    /// An empty buffer with room reserved for `bits` bits.
    pub fn with_capacity(bits: usize) -> (r: Self)
        requires
            bits + 63 <= usize::MAX,
        ensures
            r.wf(),
            r@ == Seq::<bool>::empty(),
            r.words() == Seq::<u64>::empty(),
    {
        BitBuf { data: Vec::with_capacity((bits + 63) >> 6), bit_len: 0 }
    }

    /// The buffer holding the bits of `bytes`, least significant bit of each
    /// byte first.
    pub fn from_bytes(bytes: &[u8]) -> (r: Self)
        requires
            8 * bytes.len() + 63 <= usize::MAX,
        ensures
            r.wf(),
            r@ == unpack_bytes(bytes@),
    {
        let mut buf = Self::with_capacity(bytes.len() * 8);
        let mut i: usize = 0;
        while i < bytes.len()
            invariant
                i <= bytes.len(),
                8 * bytes.len() + 63 <= usize::MAX,
                buf.wf(),
                buf.spec_len() == 8 * i,
                forall|x: int| 0 <= x < 8 * i ==> buf.bit(x) == u8_bit(bytes@[x / 8], x % 8),
            decreases bytes.len() - i,
        {
            let b = bytes[i];
            let ghost before = buf;
            buf.push_bits(b as u64, 8);
            proof {
                assert forall|x: int| 0 <= x < 8 * (i + 1) implies buf.bit(x) == u8_bit(bytes@[x / 8], x % 8) by {
                    if x >= 8 * i {
                        assert(!before.bit(x));
                        lemma_u8_widen_bit(b, (x - 8 * i) as u64);
                        assert(x / 8 == i as int);
                    }
                }
            }
            i += 1;
        }
        proof {
            assert(buf@ =~= unpack_bytes(bytes@));
        }
        buf
    }

    /// Number of bits held.
    pub fn len(&self) -> (r: usize)
        ensures
            r == self.spec_len(),
    {
        self.bit_len
    }

    /// Whether no bit is held.
    pub fn is_empty(&self) -> (r: bool)
        ensures
            r == (self.spec_len() == 0),
    {
        self.bit_len == 0
    }

    /// Append the `count` low-order bits of `value`.
    pub fn push_bits(&mut self, value: u64, count: u8)
        requires
            count <= 64,
            old(self).spec_len() / 64 <= old(self).words().len(),
            old(self).spec_len() + count <= usize::MAX,
        ensures
            final(self).spec_len() == old(self).spec_len() + count,
            forall|i: int| #![trigger final(self).bit(i)]
                final(self).bit(i) == (old(self).bit(i) || (old(self).spec_len() <= i
                    < old(self).spec_len() + count && u64_bit(value, i - old(self).spec_len()))),
            final(self).words().len() >= old(self).words().len(),
            final(self).covered(),
            old(self).wf() ==> final(self).wf(),
            old(self).wf() ==> final(self)@ == old(self)@ + low_bits(value, count as nat),
    {
        let ghost old_self = *self;
        let ghost old_len = self.bit_len as int;
        let mask = low_mask(count);
        let v = value & mask;
        proof {
            assert forall|j: int| 0 <= j < 64 implies (u64_bit(v, j) <==> (j < count && u64_bit(value, j))) by {
                lemma_and_bit(value, mask, j as u64);
                assert(u64_bit(mask, j) <==> j < count);
            }
        }
        let word_idx = self.bit_len / 64;
        let bit_off = self.bit_len % 64;
        if word_idx >= self.data.len() {
            self.data.push(0);
        }
        if bit_off + count as usize > 64 && word_idx + 1 >= self.data.len() {
            self.data.push(0);
        }
        let ghost grown = self.data@;
        proof {
            assert forall|w: int| 0 <= w < grown.len() implies grown[w] == (if w < old_self.words().len() {
                old_self.words()[w]
            } else {
                0u64
            }) by {}
        }
        let lo = self.data[word_idx] | (v << (bit_off as u64));
        self.data.set(word_idx, lo);
        let overflow = if bit_off + count as usize > 64 { bit_off + count as usize - 64 } else { 0 };
        if overflow > 0 {
            let hi = self.data[word_idx + 1] | (v >> ((count as usize - overflow) as u64));
            self.data.set(word_idx + 1, hi);
        }
        self.bit_len = self.bit_len + count as usize;
        proof {
            assert(old_len == 64 * word_idx + bit_off);
            assert(grown.len() > word_idx);
            assert(overflow > 0 ==> grown.len() > word_idx + 1);
            assert(overflow == 0 ==> old_len + count <= 64 * (word_idx + 1));
            assert(overflow > 0 ==> old_len + count <= 64 * (word_idx + 2));
            assert forall|i: int| #![trigger self.bit(i)]
                self.bit(i) == (old_self.bit(i) || (old_len <= i < old_len + count && u64_bit(value, i - old_len))) by {
                if 0 <= i < 64 * grown.len() {
                    let w = i / 64;
                    let j = i % 64;
                    assert(i == 64 * w + j);
                    if w == word_idx {
                        lemma_or_bit(grown[w], v << (bit_off as u64), j as u64);
                        lemma_shl_bit(v, bit_off as u64, j as u64);
                        if w >= old_self.words().len() {
                            lemma_zero_bits(j as u64);
                        }
                        if j >= bit_off {
                            assert(u64_bit(v, j - bit_off) <==> (j - bit_off < count && u64_bit(value, j - bit_off)));
                            assert(i - old_len == j - bit_off);
                        }
                    } else if overflow > 0 && w == word_idx + 1 {
                        let s = (count as usize - overflow) as u64;
                        assert(s == 64 - bit_off);
                        lemma_or_bit(grown[w], v >> s, j as u64);
                        lemma_shr_bit(v, s, j as u64);
                        if w >= old_self.words().len() {
                            lemma_zero_bits(j as u64);
                        }
                        assert(i - old_len == j + s);
                        if j + s < 64 {
                            assert(u64_bit(v, j + s) <==> (j + s < count && u64_bit(value, j + s)));
                        }
                    } else {
                        if w >= old_self.words().len() {
                            lemma_zero_bits(j as u64);
                        }
                    }
                }
            }
            if old_self.wf() {
                assert forall|i: int| i >= self.spec_len() implies !#[trigger] self.bit(i) by {
                    assert(!old_self.bit(i));
                }
                assert(self@ =~= old_self@ + low_bits(value, count as nat));
            }
        }
    }

    /// The `count` bits starting at bit position `pos`, as the low bits of a
    /// word (bits past the storage read as zero).
    pub fn read_bits(&self, pos: usize, count: u8) -> (r: u64)
        requires
            count <= 64,
            pos / 64 < self.words().len(),
        ensures
            forall|j: int| 0 <= j < 64 ==> (u64_bit(r, j) <==> (j < count && self.bit(pos + j))),
    {
        let mask = low_mask(count);
        let word_idx = pos / 64;
        let bit_off = pos % 64;
        let lo = self.data[word_idx] >> (bit_off as u64);
        let need_hi = bit_off + count as usize > 64;
        let hi = if need_hi && word_idx + 1 < self.data.len() {
            self.data[word_idx + 1] << ((64 - bit_off) as u64)
        } else {
            0
        };
        let r = (lo | hi) & mask;
        proof {
            assert forall|j: int| 0 <= j < 64 implies (u64_bit(r, j) <==> (j < count && self.bit(pos + j))) by {
                let jj = j as u64;
                lemma_and_bit(lo | hi, mask, jj);
                assert(u64_bit(mask, j) <==> j < count);
                lemma_or_bit(lo, hi, jj);
                lemma_shr_bit(self.data@[word_idx as int], bit_off as u64, jj);
                if need_hi && word_idx + 1 < self.data.len() {
                    lemma_shl_bit(self.data@[word_idx + 1], (64 - bit_off) as u64, jj);
                } else {
                    lemma_zero_bits(jj);
                }
                if j < count && bit_off + j >= 64 {
                    assert((pos + j) / 64 == word_idx + 1);
                    assert((pos + j) % 64 == j - (64 - bit_off));
                } else if bit_off + j < 64 {
                    assert((pos + j) / 64 == word_idx);
                    assert((pos + j) % 64 == j + bit_off);
                }
            }
        }
        r
    }

    /// The bits packed into bytes, least significant first; the last byte is
    /// padded with zero bits.
    pub fn to_bytes(&self) -> (r: Vec<u8>)
        requires
            self.covered(),
            self.spec_len() + 7 <= usize::MAX,
        ensures
            r@ == pack_bits(self@),
    {
        let byte_len = (self.bit_len + 7) / 8;
        let mut out: Vec<u8> = Vec::with_capacity(byte_len);
        let mut pos: usize = 0;
        while pos < self.bit_len
            invariant
                self.covered(),
                self.spec_len() + 7 <= usize::MAX,
                pos == 8 * out.len(),
                pos <= self.spec_len() + 7,
                pos < self.spec_len() ==> out.len() < (self.spec_len() + 7) / 8,
                pos >= self.spec_len() ==> out.len() == (self.spec_len() + 7) / 8,
                forall|i: int| 0 <= i < out.len() ==> out@[i] == pack_bits(self@)[i],
            decreases self.spec_len() + 8 - pos,
        {
            let rem = if self.bit_len - pos < 8 { self.bit_len - pos } else { 8 };
            let w = self.read_bits(pos, rem as u8);
            let b = w as u8;
            proof {
                assert forall|j: int| 0 <= j < 8 implies u8_bit(b, j) == (j < 8 && bit_at(self@, pos + j)) by {
                    lemma_u8_cast_bit(w, j as u64);
                    assert(u64_bit(w, j) <==> (j < rem && self.bit(pos + j)));
                }
                lemma_u8_value(b, self@, pos as int, 8);
            }
            out.push(b);
            pos = pos + 8;
        }
        proof {
            assert(out@ =~= pack_bits(self@));
        }
        out
    }

    /// The module values: consecutive groups of `bpm` bits, each read as a
    /// number (and truncated to a byte). A final partial group is dropped.
    pub fn modules(&self, bpm: u8) -> (r: Vec<u8>)
        requires
            1 <= bpm <= 64,
            self.covered(),
        ensures
            r.len() == self.spec_len() / (bpm as nat),
            forall|i: int| #![trigger r@[i]] 0 <= i < r.len() ==>
                r@[i] as nat == bits_value(self@, i * bpm, if bpm <= 8 { bpm as nat } else { 8 }),
    {
        let total = self.bit_len / (bpm as usize);
        let ghost cnt: nat = if bpm <= 8 { bpm as nat } else { 8 };
        let mut out: Vec<u8> = Vec::with_capacity(total);
        let mut i: usize = 0;
        while i < total
            invariant
                1 <= bpm <= 64,
                self.covered(),
                total == self.spec_len() / (bpm as nat),
                cnt == (if bpm <= 8 { bpm as nat } else { 8 }),
                i <= total,
                out.len() == i,
                forall|t: int| #![trigger out@[t]] 0 <= t < i ==> out@[t] as nat == bits_value(self@, t * bpm, cnt),
            decreases total - i,
        {
            proof {
                assert((i + 1) * bpm <= total * bpm) by (nonlinear_arith)
                    requires i < total;
                assert(total * bpm <= self.spec_len()) by (nonlinear_arith)
                    requires total == self.spec_len() / (bpm as nat), bpm >= 1;
                assert(i * bpm + bpm == (i + 1) * bpm) by (nonlinear_arith);
            }
            let pos = i * (bpm as usize);
            let w = self.read_bits(pos, bpm);
            let b = w as u8;
            proof {
                assert forall|j: int| 0 <= j < 8 implies u8_bit(b, j) == (j < cnt && bit_at(self@, pos + j)) by {
                    lemma_u8_cast_bit(w, j as u64);
                    assert(u64_bit(w, j) <==> (j < bpm && self.bit(pos + j)));
                }
                lemma_u8_value(b, self@, pos as int, cnt);
            }
            out.push(b);
            i = i + 1;
        }
        out
    }

    /// The storage words.
    pub fn inner(&self) -> (r: &[u64])
        ensures
            r@ == self.words(),
    {
        self.data.as_slice()
    }

    /// Mutable access to the storage words; the length in bits stays as it is.
    pub fn inner_mut(&mut self) -> (r: &mut Vec<u64>)
        ensures
            r@ == old(self).words(),
            final(self).words() == final(r)@,
            final(self).spec_len() == old(self).spec_len(),
    {
        &mut self.data
    }

    /// Set or clear the bit at position `pos`.
    pub fn set_bit(&mut self, pos: usize, val: bool)
        requires
            pos / 64 < old(self).words().len(),
        ensures
            final(self).spec_len() == old(self).spec_len(),
            final(self).words().len() == old(self).words().len(),
            forall|i: int| #![trigger final(self).bit(i)]
                final(self).bit(i) == if i == pos { val } else { old(self).bit(i) },
    {
        let word = pos / 64;
        let shift = (pos % 64) as u64;
        let ghost old_w = self.data@[word as int];
        let one = 1u64 << shift;
        let nw = if val { self.data[word] | one } else { self.data[word] & !one };
        self.data.set(word, nw);
        proof {
            assert forall|j: int| 0 <= j < 64 implies (u64_bit(nw, j) == if j == shift { val } else { u64_bit(old_w, j) }) by {
                let jj = j as u64;
                if val {
                    assert(((old_w | (1u64 << shift)) >> jj) & 1 == 1 <==> (jj == shift || (old_w >> jj) & 1 == 1)) by (bit_vector)
                        requires shift < 64, jj < 64;
                } else {
                    assert(((old_w & !(1u64 << shift)) >> jj) & 1 == 1 <==> (jj != shift && (old_w >> jj) & 1 == 1)) by (bit_vector)
                        requires shift < 64, jj < 64;
                }
            }
            assert forall|i: int| #![trigger self.bit(i)]
                self.bit(i) == if i == pos { val } else { old(self).bit(i) } by {
                if 0 <= i < 64 * self.data.len() && i / 64 == word {
                    assert(u64_bit(nw, i % 64) == if i % 64 == shift { val } else { u64_bit(old_w, i % 64) });
                }
            }
        }
    }

    /// The bit at position `pos`.
    pub fn get_bit(&self, pos: usize) -> (r: bool)
        requires
            pos / 64 < self.words().len(),
        ensures
            r == self.bit(pos as int),
    {
        let word = pos / 64;
        let shift = (pos % 64) as u64;
        (self.data[word] >> shift) & 1 == 1
    }

    /// Set the length to `bits` and the storage to exactly the words that
    /// cover it: added words are zero, removed words are dropped. Bits of the
    /// last word past the new length are kept as they were.
    pub fn resize_bits(&mut self, bits: usize)
        requires
            bits + 63 <= usize::MAX,
        ensures
            final(self).spec_len() == bits,
            final(self).words().len() == (bits + 63) / 64,
            forall|w: int| #![trigger final(self).words()[w]] 0 <= w < final(self).words().len() ==>
                final(self).words()[w] == if w < old(self).words().len() { old(self).words()[w] } else { 0u64 },
    {
        let words = (bits + 63) / 64;
        self.data.resize(words, 0);
        self.bit_len = bits;
    }
}

/// Reading back what was pushed: in a buffer whose bits are `before`
/// followed by the `count` low bits of `value` (as `push_bits` leaves it),
/// the `count` bits read at `before.len()` are those of `value`.
pub proof fn lemma_push_read_back(b: BitBuf, before: Seq<bool>, value: u64, count: nat)
    requires
        b@ == before + low_bits(value, count),
    ensures
        forall|j: int| 0 <= j < count ==> #[trigger] b.bit(before.len() + j) == u64_bit(value, j),
{
    assert forall|j: int| 0 <= j < count implies #[trigger] b.bit(before.len() + j) == u64_bit(value, j) by {
        let x = before.len() + j;
        assert(b@.len() == b.spec_len());
        assert(b@[x] == b.bit(x));
        assert(b@[x] == low_bits(value, count)[j]);
    }
}

/// XOR two bit buffers word by word in place (`a ^= b`), over the words they
/// both have.
pub fn xor_assign(a: &mut BitBuf, b: &BitBuf)
    ensures
        final(a).spec_len() == old(a).spec_len(),
        final(a).words().len() == old(a).words().len(),
        forall|w: int| #![trigger final(a).words()[w]] 0 <= w < final(a).words().len() ==>
            final(a).words()[w] == if w < b.words().len() { old(a).words()[w] ^ b.words()[w] } else { old(a).words()[w] },
{
    let bw = b.inner();
    let n = if a.data.len() < bw.len() { a.data.len() } else { bw.len() };
    let mut i: usize = 0;
    while i < n
        invariant
            n <= a.data.len(),
            n <= bw.len(),
            bw@ == b.words(),
            i <= n,
            a.bit_len == old(a).bit_len,
            a.data.len() == old(a).data.len(),
            forall|w: int| #![trigger a.data@[w]] 0 <= w < a.data.len() ==>
                a.data@[w] == if w < i { old(a).data@[w] ^ bw@[w] } else { old(a).data@[w] },
        decreases n - i,
    {
        let x = a.data[i] ^ bw[i];
        a.data.set(i, x);
        i = i + 1;
    }
}

/// Packing the bits of a byte sequence back into bytes gives the sequence.
pub proof fn lemma_bytes_bits_roundtrip(bytes: Seq<u8>)
    ensures
        pack_bits(unpack_bytes(bytes)) == bytes,
{
    let s = unpack_bytes(bytes);
    assert forall|i: int| 0 <= i < bytes.len() implies pack_bits(s)[i] == bytes[i] by {
        assert forall|j: int| 0 <= j < 8 implies u8_bit(bytes[i], j) == (j < 8 && bit_at(s, 8 * i + j)) by {
            assert((8 * i + j) / 8 == i);
            assert((8 * i + j) % 8 == j);
        }
        lemma_u8_value(bytes[i], s, 8 * i, 8);
    }
    assert(pack_bits(s) =~= bytes);
}


} // verus!
