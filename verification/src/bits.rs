//! Bits of bytes, most significant first, and little-endian words.
use vstd::prelude::*;

verus! {

/// Bit `j` of `b`, counted from the most significant one.
pub open spec fn bit_of(b: u8, j: int) -> bool {
    (b >> ((7 - j) as u8)) & 1 == 1
}

/// Bit `p` of a byte sequence, counted from the most significant bit of its
/// first byte.
pub open spec fn bit_at(bytes: Seq<u8>, p: int) -> bool {
    bit_of(bytes[p / 8], p % 8)
}

/// Bytes that hold `n` bits.
pub open spec fn bytes_for(n: int) -> int {
    (n + 7) / 8
}

pub fn bytes_for_bits(n: usize) -> (r: usize)
    ensures
        r == bytes_for(n as int),
{
    n / 8 + if n % 8 == 0 {
        0
    } else {
        1
    }
}

/// A byte is determined by its bits.
pub proof fn lemma_same_bits(a: u8, b: u8)
    requires
        forall|j: int| 0 <= j < 8 ==> #[trigger] bit_of(a, j) == bit_of(b, j),
    ensures
        a == b,
{
    assert(bit_of(a, 0) == bit_of(b, 0));
    assert(bit_of(a, 1) == bit_of(b, 1));
    assert(bit_of(a, 2) == bit_of(b, 2));
    assert(bit_of(a, 3) == bit_of(b, 3));
    assert(bit_of(a, 4) == bit_of(b, 4));
    assert(bit_of(a, 5) == bit_of(b, 5));
    assert(bit_of(a, 6) == bit_of(b, 6));
    assert(bit_of(a, 7) == bit_of(b, 7));
    assert(a == b) by (bit_vector)
        requires
            (a >> 7 & 1 == 1) == (b >> 7 & 1 == 1),
            (a >> 6 & 1 == 1) == (b >> 6 & 1 == 1),
            (a >> 5 & 1 == 1) == (b >> 5 & 1 == 1),
            (a >> 4 & 1 == 1) == (b >> 4 & 1 == 1),
            (a >> 3 & 1 == 1) == (b >> 3 & 1 == 1),
            (a >> 2 & 1 == 1) == (b >> 2 & 1 == 1),
            (a >> 1 & 1 == 1) == (b >> 1 & 1 == 1),
            (a >> 0 & 1 == 1) == (b >> 0 & 1 == 1),
    ;
}

/// No bit of zero is set.
pub proof fn lemma_zero_bits(j: int)
    requires
        0 <= j < 8,
    ensures
        !bit_of(0, j),
{
    let t = (7 - j) as u8;
    assert((0u8 >> t) & 1 == 0) by (bit_vector)
        requires
            t < 8,
    ;
}

/// A disjunction sets the bits of both sides.
pub proof fn lemma_or_bits(a: u8, b: u8, j: int)
    requires
        0 <= j < 8,
    ensures
        bit_of(a | b, j) == (bit_of(a, j) || bit_of(b, j)),
{
    let t = (7 - j) as u8;
    assert((((a | b) >> t) & 1 == 1) == ((a >> t) & 1 == 1 || (b >> t) & 1 == 1)) by (bit_vector)
        requires
            t < 8,
    ;
}

/// The bits of a mask with one bit.
pub proof fn lemma_one_bit(k: u8, j: int)
    requires
        k < 8,
        0 <= j < 8,
    ensures
        bit_of(1u8 << (7 - k) as u8, j) == (j == k),
{
    let t = (7 - j) as u8;
    let s = (7 - k) as u8;
    assert((((1u8 << s) >> t) & 1 == 1) == (s == t)) by (bit_vector)
        requires
            s < 8,
            t < 8,
    ;
}

/// The low `w` bits of `x`, moved to start at bit `s` of a pair of bytes: the
/// first byte of the pair.
pub open spec fn spread_hi(x: u8, w: u16, s: u16) -> u8 {
    ((((x as u16) & sub_one_shl(w)) << ((16 - w - s) as u16)) >> 8) as u8
}

/// The second byte of the pair.
pub open spec fn spread_lo(x: u8, w: u16, s: u16) -> u8 {
    ((((x as u16) & sub_one_shl(w)) << ((16 - w - s) as u16)) & 0xff) as u8
}

/// A mask of the low `w` bits.
pub open spec fn sub_one_shl(w: u16) -> u16 {
    ((1u16 << w) - 1) as u16
}

/// Bits `s..s + w` of a pair of bytes as a number.
pub open spec fn collect(hi: u8, lo: u8, w: u16, s: u16) -> u8 {
    (((((hi as u16) << 8) | (lo as u16)) >> ((16 - w - s) as u16)) & sub_one_shl(w)) as u8
}

pub proof fn lemma_spread_bits(x: u8, w: u16, s: u16, k: int)
    requires
        1 <= w <= 8,
        s < 8,
        0 <= k < 16,
    ensures
        (if k < 8 {
            bit_of(spread_hi(x, w, s), k)
        } else {
            bit_of(spread_lo(x, w, s), k - 8)
        }) == (s <= k < s + w && bit_of(x, 8 - w + (k - s))),
{
    let m = sub_one_shl(w);
    let sh = (16 - w - s) as u16;
    assert((1u16 << w) >= 1) by (bit_vector)
        requires
            w <= 8,
    ;
    let hi = spread_hi(x, w, s);
    let lo = spread_lo(x, w, s);
    let k16 = k as u16;
    if k < 8 {
        let t = (7 - k) as u8;
        if s <= k < s + w {
            let u = (7 - (8 - w + (k - s))) as u8;
            assert(((hi >> t) & 1 == 1) == ((x >> u) & 1 == 1)) by (bit_vector)
                requires
                    1 <= w <= 8,
                    s < 8,
                    k16 < 8,
                    s <= k16,
                    k16 < s + w,
                    t == 7 - k16,
                    u == 7 - (8 - w + (k16 - s)),
                    sh == 16 - w - s,
                    m == (1u16 << w) - 1,
                    hi == ((((x as u16) & m) << sh) >> 8) as u8,
            ;
        } else {
            assert((hi >> t) & 1 == 0) by (bit_vector)
                requires
                    1 <= w <= 8,
                    s < 8,
                    k16 < 8,
                    !(s <= k16 && k16 < s + w),
                    t == 7 - k16,
                    sh == 16 - w - s,
                    m == (1u16 << w) - 1,
                    hi == ((((x as u16) & m) << sh) >> 8) as u8,
            ;
        }
    } else {
        let t = (15 - k) as u8;
        if s <= k < s + w {
            let u = (7 - (8 - w + (k - s))) as u8;
            assert(((lo >> t) & 1 == 1) == ((x >> u) & 1 == 1)) by (bit_vector)
                requires
                    1 <= w <= 8,
                    s < 8,
                    8 <= k16 < 16,
                    s <= k16,
                    k16 < s + w,
                    t == 15 - k16,
                    u == 7 - (8 - w + (k16 - s)),
                    sh == 16 - w - s,
                    m == (1u16 << w) - 1,
                    lo == ((((x as u16) & m) << sh) & 0xff) as u8,
            ;
        } else {
            assert((lo >> t) & 1 == 0) by (bit_vector)
                requires
                    1 <= w <= 8,
                    s < 8,
                    8 <= k16 < 16,
                    !(s <= k16 && k16 < s + w),
                    t == 15 - k16,
                    sh == 16 - w - s,
                    m == (1u16 << w) - 1,
                    lo == ((((x as u16) & m) << sh) & 0xff) as u8,
            ;
        }
    }
}

pub proof fn lemma_collect_bits(hi: u8, lo: u8, w: u16, s: u16, j: int)
    requires
        1 <= w <= 8,
        s < 8,
        0 <= j < 8,
    ensures
        bit_of(collect(hi, lo, w, s), j) == (j >= 8 - w && if s + j - (8 - w) < 8 {
            bit_of(hi, s + j - (8 - w))
        } else {
            bit_of(lo, s + j - (8 - w) - 8)
        }),
{
    let m = sub_one_shl(w);
    let sh = (16 - w - s) as u16;
    assert((1u16 << w) >= 1) by (bit_vector)
        requires
            w <= 8,
    ;
    let r = collect(hi, lo, w, s);
    let t = (7 - j) as u8;
    let j16 = j as u16;
    if j >= 8 - w {
        let k = s + j - (8 - w);
        let k16 = k as u16;
        if k < 8 {
            let u = (7 - k) as u8;
            assert(((r >> t) & 1 == 1) == ((hi >> u) & 1 == 1)) by (bit_vector)
                requires
                    1 <= w <= 8,
                    s < 8,
                    j16 < 8,
                    j16 + w >= 8,
                    k16 < 8,
                    k16 + 8 == s + j16 + w,
                    t == 7 - j16,
                    u == 7 - k16,
                    sh == 16 - w - s,
                    m == (1u16 << w) - 1,
                    r == (((((hi as u16) << 8) | (lo as u16)) >> sh) & m) as u8,
            ;
        } else {
            let u = (15 - k) as u8;
            assert(((r >> t) & 1 == 1) == ((lo >> u) & 1 == 1)) by (bit_vector)
                requires
                    1 <= w <= 8,
                    s < 8,
                    j16 < 8,
                    8 <= k16 < 16,
                    k16 + 8 == s + j16 + w,
                    t == 7 - j16,
                    u == 15 - k16,
                    sh == 16 - w - s,
                    m == (1u16 << w) - 1,
                    r == (((((hi as u16) << 8) | (lo as u16)) >> sh) & m) as u8,
            ;
        }
    } else {
        assert((r >> t) & 1 == 0) by (bit_vector)
            requires
                1 <= w <= 8,
                j16 + w < 8,
                t == 7 - j16,
                m == (1u16 << w) - 1,
                r == (((((hi as u16) << 8) | (lo as u16)) >> sh) & m) as u8,
        ;
    }
}

/// Byte `i` of `x`, counted from the least significant one.
pub open spec fn le_byte(x: u32, i: int) -> u8 {
    (x >> ((8 * i) as u32)) as u8
}

/// `bytes` from `at` on hold `x`, least significant byte first.
pub open spec fn holds_le32(bytes: Seq<u8>, at: int, x: u32) -> bool {
    forall|i: int| 0 <= i < 4 ==> #[trigger] bytes[at + i] == le_byte(x, i)
}

/// The word that four bytes hold, least significant first.
pub open spec fn le32(b0: u8, b1: u8, b2: u8, b3: u8) -> u32 {
    (b0 as u32) | ((b1 as u32) << 8) | ((b2 as u32) << 16) | ((b3 as u32) << 24)
}

/// The word that `bytes` hold from `at` on.
pub open spec fn le32_at(bytes: Seq<u8>, at: int) -> u32 {
    le32(bytes[at], bytes[at + 1], bytes[at + 2], bytes[at + 3])
}

/// Splitting a word and joining its bytes gives the word back.
pub proof fn lemma_le32_join(x: u32)
    ensures
        le32(le_byte(x, 0), le_byte(x, 1), le_byte(x, 2), le_byte(x, 3)) == x,
{
    assert((((x >> 0) as u8) as u32) | ((((x >> 8) as u8) as u32) << 8) | ((((x >> 16) as u8)
        as u32) << 16) | ((((x >> 24) as u8) as u32) << 24) == x) by (bit_vector);
}

/// Joining four bytes and splitting the word gives the bytes back.
pub proof fn lemma_le32_split(b0: u8, b1: u8, b2: u8, b3: u8)
    ensures
        le_byte(le32(b0, b1, b2, b3), 0) == b0,
        le_byte(le32(b0, b1, b2, b3), 1) == b1,
        le_byte(le32(b0, b1, b2, b3), 2) == b2,
        le_byte(le32(b0, b1, b2, b3), 3) == b3,
{
    let x = le32(b0, b1, b2, b3);
    assert((x >> 0) as u8 == b0 && (x >> 8) as u8 == b1 && (x >> 16) as u8 == b2 && (x >> 24) as u8
        == b3) by (bit_vector)
        requires
            x == (b0 as u32) | ((b1 as u32) << 8) | ((b2 as u32) << 16) | ((b3 as u32) << 24),
    ;
}

/// Bytes that hold `x` are read as `x`, and the bytes at a place hold what is
/// read there.
pub proof fn lemma_le32_at(bytes: Seq<u8>, at: int, x: u32)
    ensures
        holds_le32(bytes, at, x) <==> le32_at(bytes, at) == x,
{
    if holds_le32(bytes, at, x) {
        assert(bytes[at + 0] == le_byte(x, 0));
        assert(bytes[at + 1] == le_byte(x, 1));
        assert(bytes[at + 2] == le_byte(x, 2));
        assert(bytes[at + 3] == le_byte(x, 3));
        lemma_le32_join(x);
    }
    if le32_at(bytes, at) == x {
        lemma_le32_split(bytes[at], bytes[at + 1], bytes[at + 2], bytes[at + 3]);
        assert forall|i: int| 0 <= i < 4 implies #[trigger] bytes[at + i] == le_byte(x, i) by {
            assert(i == 0 || i == 1 || i == 2 || i == 3);
        }
    }
}

/// Reads a little-endian word at `at`.
pub fn read_le32(bytes: &[u8], at: usize) -> (x: u32)
    requires
        at + 4 <= bytes@.len(),
    ensures
        x == le32_at(bytes@, at as int),
        holds_le32(bytes@, at as int, x),
{
    proof {
        assert(bytes@.len() == bytes.len());
        lemma_le32_at(bytes@, at as int, le32_at(bytes@, at as int));
    }
    (bytes[at] as u32) | ((bytes[at + 1] as u32) << 8) | ((bytes[at + 2] as u32) << 16) | ((bytes[at
        + 3] as u32) << 24)
}

/// Writes a little-endian word at `at`.
pub fn write_le32(bytes: &mut [u8], at: usize, x: u32)
    requires
        at + 4 <= old(bytes)@.len(),
    ensures
        final(bytes)@.len() == old(bytes)@.len(),
        holds_le32(final(bytes)@, at as int, x),
        le32_at(final(bytes)@, at as int) == x,
        forall|p: int|
            0 <= p < old(bytes)@.len() && !(at <= p < at + 4) ==> #[trigger] final(bytes)@[p]
                == old(bytes)@[p],
{
    proof {
        assert(bytes@.len() == bytes.len());
    }
    bytes[at] = #[verifier::truncate] (x as u8);
    bytes[at + 1] = #[verifier::truncate] ((x >> 8) as u8);
    bytes[at + 2] = #[verifier::truncate] ((x >> 16) as u8);
    bytes[at + 3] = #[verifier::truncate] ((x >> 24) as u8);
    proof {
        assert(x >> 0 == x) by (bit_vector);
        assert forall|i: int| 0 <= i < 4 implies #[trigger] bytes@[at + i] == le_byte(x, i) by {
            assert(i == 0 || i == 1 || i == 2 || i == 3);
        }
        lemma_le32_at(bytes@, at as int, x);
    }
}

/// Any eight bits make up a byte.
pub proof fn lemma_byte_of_bits(b: spec_fn(int) -> bool) -> (x: u8)
    ensures
        forall|j: int| 0 <= j < 8 ==> #[trigger] bit_of(x, j) == b(j),
{
    let (b0, b1, b2, b3) = (b(0), b(1), b(2), b(3));
    let (b4, b5, b6, b7) = (b(4), b(5), b(6), b(7));
    let hi: u8 = (if b0 { 128u8 } else { 0 }) | (if b1 { 64u8 } else { 0 }) | (if b2 {
        32u8
    } else {
        0
    }) | (if b3 { 16u8 } else { 0 });
    let lo: u8 = (if b4 { 8u8 } else { 0 }) | (if b5 { 4u8 } else { 0 }) | (if b6 {
        2u8
    } else {
        0
    }) | (if b7 { 1u8 } else { 0 });
    let x: u8 = hi | lo;
    assert(((x >> 7u8) & 1 == 1) == b0 && ((x >> 6u8) & 1 == 1) == b1 && ((x >> 5u8) & 1 == 1) == b2
        && ((x >> 4u8) & 1 == 1) == b3 && ((x >> 3u8) & 1 == 1) == b4 && ((x >> 2u8) & 1 == 1) == b5
        && ((x >> 1u8) & 1 == 1) == b6 && ((x >> 0u8) & 1 == 1) == b7) by (bit_vector)
        requires
            hi == (if b0 { 128u8 } else { 0 }) | (if b1 { 64u8 } else { 0 }) | (if b2 {
                32u8
            } else {
                0
            }) | (if b3 { 16u8 } else { 0 }),
            lo == (if b4 { 8u8 } else { 0 }) | (if b5 { 4u8 } else { 0 }) | (if b6 {
                2u8
            } else {
                0
            }) | (if b7 { 1u8 } else { 0 }),
            x == hi | lo,
    ;
    x
}

/// The bits of a byte are its binary digits, the highest first.
pub proof fn law_bits_are_binary_digits(b: u8)
    ensures
        b == 128 * (bit_of(b, 0) as int) + 64 * (bit_of(b, 1) as int) + 32 * (bit_of(b, 2) as int)
            + 16 * (bit_of(b, 3) as int) + 8 * (bit_of(b, 4) as int) + 4 * (bit_of(b, 5) as int) + 2
            * (bit_of(b, 6) as int) + (bit_of(b, 7) as int),
{
    assert(b == 128 * (b >> 7u8 & 1) + 64 * (b >> 6u8 & 1) + 32 * (b >> 5u8 & 1) + 16 * (b >> 4u8
        & 1) + 8 * (b >> 3u8 & 1) + 4 * (b >> 2u8 & 1) + 2 * (b >> 1u8 & 1) + (b >> 0u8 & 1) && (b
        >> 7u8 & 1) <= 1 && (b >> 6u8 & 1) <= 1 && (b >> 5u8 & 1) <= 1 && (b >> 4u8 & 1) <= 1 && (b
        >> 3u8 & 1) <= 1 && (b >> 2u8 & 1) <= 1 && (b >> 1u8 & 1) <= 1 && (b >> 0u8 & 1) <= 1)
        by (bit_vector);
}

/// A word of four bytes has the first byte as its lowest digit to base 256.
pub proof fn law_words_read_low_byte_first(b0: u8, b1: u8, b2: u8, b3: u8)
    ensures
        le32(b0, b1, b2, b3) == b0 + 0x100 * b1 + 0x1_0000 * b2 + 0x100_0000 * b3,
{
    assert((b0 as u32) | ((b1 as u32) << 8) | ((b2 as u32) << 16) | ((b3 as u32) << 24) == b0
        + 0x100 * b1 + 0x1_0000 * b2 + 0x100_0000 * b3) by (bit_vector);
}

} // verus!
