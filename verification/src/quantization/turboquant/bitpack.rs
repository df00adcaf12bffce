//! Bit-packed storage for indices of one to eight bits, and for signs.
//!
//! Bits are written most significant first; an index may cross a byte
//! boundary.
use vstd::prelude::*;
use vstd::arithmetic::power2::{lemma2_to64, pow2};
use crate::arith::{lemma_total_step, total};
use crate::bits::{
    bit_at, bit_of, bytes_for, bytes_for_bits, collect, law_bits_are_binary_digits, lemma_collect_bits, lemma_one_bit,
    lemma_or_bits, lemma_same_bits, lemma_spread_bits, lemma_zero_bits, spread_hi, spread_lo,
    sub_one_shl,
};

verus! {

/// The first `count` indices of `bytes`, packed with `w` bits each, are the
/// low bits of the entries of `indices`.
pub open spec fn packs(bytes: Seq<u8>, indices: Seq<u8>, count: int, w: int) -> bool {
    forall|i: int, j: int|
        0 <= i < count && 0 <= j < w ==> #[trigger] bit_at(bytes, i * w + j) == #[trigger] bit_of(
            indices[i],
            8 - w + j,
        )
}

/// No bit of `bytes` from bit `from` to bit `to` is set.
pub open spec fn clear_bits(bytes: Seq<u8>, from: int, to: int) -> bool {
    forall|p: int| from <= p < to ==> !#[trigger] bit_at(bytes, p)
}

/// The index that `w` bits of `bytes` from bit `p` on spell.
pub open spec fn spelled(bytes: Seq<u8>, p: int, w: int, x: u8) -> bool {
    forall|j: int|
        0 <= j < 8 ==> #[trigger] bit_of(x, j) == (j >= 8 - w && bit_at(bytes, p + j - (8 - w)))
}

/// The first `count` bits of `bytes` are `signs`.
pub open spec fn packs_signs(bytes: Seq<u8>, signs: Seq<bool>, count: int) -> bool {
    forall|i: int| 0 <= i < count ==> #[trigger] bit_at(bytes, i) == signs[i]
}

/// Bytes needed to hold `count` indices of `bit_width` bits each.
pub fn packed_byte_size(count: usize, bit_width: u8) -> (r: usize)
    requires
        count * bit_width <= usize::MAX,
    ensures
        r == bytes_for(count * bit_width),
{
    bytes_for_bits(count * bit_width as usize)
}

/// Sets the first `n` bytes to zero.
pub(crate) fn zero_prefix(out: &mut [u8], n: usize)
    requires
        n <= old(out)@.len(),
    ensures
        final(out)@.len() == old(out)@.len(),
        forall|i: int|
            0 <= i < old(out)@.len() ==> #[trigger] final(out)@[i] == if i < n {
                0
            } else {
                old(out)@[i]
            },
{
    let ghost before = out@;
    for i in 0..n
        invariant
            n <= before.len(),
            out@.len() == before.len(),
            forall|j: int|
                0 <= j < before.len() ==> #[trigger] out@[j] == if j < i {
                    0
                } else {
                    before[j]
                },
    {
        out[i] = 0;
    }
}

/// Setting further bits of one byte changes the bits of that byte only.
pub proof fn lemma_or_at(before: Seq<u8>, at: int, b: u8, p: int)
    requires
        0 <= at < before.len(),
        0 <= p < 8 * before.len(),
    ensures
        bit_at(before.update(at, before[at] | b), p) == (bit_at(before, p) || (p / 8 == at
            && bit_of(b, p % 8))),
{
    lemma_or_bits(before[at], b, p % 8);
}

/// Packs `indices` into the front of `out`; only the low `bit_width` bits of
/// an index are kept.
pub fn pack_into(indices: &[u8], bit_width: u8, out: &mut [u8])
    requires
        1 <= bit_width <= 8,
        indices@.len() * bit_width <= usize::MAX,
        bytes_for(indices@.len() * bit_width) <= old(out)@.len(),
    ensures
        final(out)@.len() == old(out)@.len(),
        packs(final(out)@, indices@, indices@.len() as int, bit_width as int),
        clear_bits(
            final(out)@,
            indices@.len() * bit_width,
            8 * bytes_for(indices@.len() * bit_width),
        ),
        forall|i: int|
            bytes_for(indices@.len() * bit_width) <= i < old(out)@.len() ==> #[trigger] final(
                out)@[i] == old(out)@[i],
{
    let ghost before = out@;
    let ghost n = indices@.len() as int;
    let ghost w = bit_width as int;
    let need: usize = packed_byte_size(indices.len(), bit_width);
    zero_prefix(out, need);
    let w16: u16 = bit_width as u16;
    proof {
        assert forall|p: int| 0 <= p < 8 * need implies !#[trigger] bit_at(out@, p) by {
            lemma_zero_bits(p % 8);
        }
        assert((1u16 << w16) >= 1 && (1u16 << w16) <= 256) by (bit_vector)
            requires
                w16 <= 8,
        ;
    }
    let mask: u16 = (1u16 << w16) - 1;
    for i in 0..indices.len()
        invariant
            n == indices@.len(),
            w == bit_width,
            w16 == bit_width,
            1 <= bit_width <= 8,
            n * w <= usize::MAX,
            mask == sub_one_shl(w16),
            need == bytes_for(n * w),
            need <= before.len(),
            out@.len() == before.len(),
            packs(out@, indices@, i as int, w),
            clear_bits(out@, i * w, 8 * need),
            forall|q: int| need <= q < before.len() ==> #[trigger] out@[q] == before[q],
    {
        proof {
            assert(i * w + w <= n * w) by (nonlinear_arith)
                requires
                    i + 1 <= n,
                    w >= 1,
            ;
            assert(0 <= i * w) by (nonlinear_arith)
                requires
                    i >= 0,
                    w >= 1,
            ;
            assert(out@.len() == out.len());
        }
        let bit_offset: usize = i * bit_width as usize;
        let byte_idx: usize = bit_offset / 8;
        let bit_idx: u16 = (bit_offset % 8) as u16;
        let x: u8 = indices[i];
        let val: u16 = (x as u16) & mask;
        let shifted: u16 = val << (16 - w16 - bit_idx);
        let hi: u8 = #[verifier::truncate] ((shifted >> 8) as u8);
        let lo: u8 = #[verifier::truncate] ((shifted & 0xff) as u8);
        let ghost first = out@;
        proof {
            assert(hi == spread_hi(x, w16, bit_idx));
            assert(lo == spread_lo(x, w16, bit_idx));
        }
        out[byte_idx] = out[byte_idx] | hi;
        let ghost second = out@;
        if byte_idx + 1 < need {
            out[byte_idx + 1] = out[byte_idx + 1] | lo;
        }
        proof {
            let base = 8 * byte_idx as int;
            assert forall|p: int| 0 <= p < 8 * need implies #[trigger] bit_at(out@, p) == (bit_at(
                first,
                p,
            ) || (i * w <= p < i * w + w && bit_of(x, 8 - w + (p - i * w)))) by {
                lemma_or_at(first, byte_idx as int, hi, p);
                if byte_idx + 1 < need {
                    lemma_or_at(second, byte_idx + 1, lo, p);
                }
                if base <= p < base + 16 {
                    lemma_spread_bits(x, w16, bit_idx, p - base);
                }
            }
            assert forall|m: int, j: int| 0 <= m < i + 1 && 0 <= j < w implies #[trigger] bit_at(
                out@,
                m * w + j,
            ) == #[trigger] bit_of(indices@[m], 8 - w + j) by {
                let p = m * w + j;
                assert(0 <= m * w) by (nonlinear_arith)
                    requires
                        m >= 0,
                        w >= 1,
                ;
                if m < i {
                    assert(m * w + w <= i * w) by (nonlinear_arith)
                        requires
                            m + 1 <= i,
                            w >= 1,
                    ;
                    assert(bit_at(first, p) == bit_of(indices@[m], 8 - w + j));
                } else {
                    assert(!bit_at(first, p));
                }
            }
            assert((i + 1) * w == i * w + w) by (nonlinear_arith);
            assert forall|p: int| (i + 1) * w <= p < 8 * need implies !#[trigger] bit_at(
                out@,
                p,
            ) by {
                assert(!bit_at(first, p));
            }
        }
    }
}

/// Packs `indices` into as many bytes as they need.
pub fn pack(indices: &[u8], bit_width: u8) -> (out: Vec<u8>)
    requires
        1 <= bit_width <= 8,
        indices@.len() * bit_width <= usize::MAX,
    ensures
        out@.len() == bytes_for(indices@.len() * bit_width),
        packs(out@, indices@, indices@.len() as int, bit_width as int),
        clear_bits(out@, indices@.len() * bit_width, 8 * (out@.len() as int)),
{
    let mut out: Vec<u8> = vec![0u8; packed_byte_size(indices.len(), bit_width)];
    pack_into(indices, bit_width, &mut out);
    out
}

/// Unpacks `count` indices of `bit_width` bits each into the front of `out`.
pub fn unpack_into(data: &[u8], count: usize, bit_width: u8, out: &mut [u8])
    requires
        1 <= bit_width <= 8,
        count * bit_width <= usize::MAX,
        bytes_for(count * bit_width) <= data@.len(),
        count <= old(out)@.len(),
    ensures
        final(out)@.len() == old(out)@.len(),
        forall|i: int|
            0 <= i < count ==> spelled(
                data@,
                i * bit_width,
                bit_width as int,
                #[trigger] final(out)@[i],
            ),
        forall|i: int|
            count <= i < old(out)@.len() ==> #[trigger] final(out)@[i] == old(out)@[i],
{
    let ghost before = out@;
    let ghost w = bit_width as int;
    let w16: u16 = bit_width as u16;
    proof {
        assert((1u16 << w16) >= 1 && (1u16 << w16) <= 256) by (bit_vector)
            requires
                w16 <= 8,
        ;
    }
    let mask: u16 = (1u16 << w16) - 1;
    for i in 0..count
        invariant
            w == bit_width,
            w16 == bit_width,
            1 <= bit_width <= 8,
            count * w <= usize::MAX,
            bytes_for(count * w) <= data@.len(),
            mask == sub_one_shl(w16),
            out@.len() == before.len(),
            count <= before.len(),
            forall|m: int|
                0 <= m < i ==> spelled(data@, m * bit_width, w, #[trigger] out@[m]),
            forall|m: int| count <= m < before.len() ==> #[trigger] out@[m] == before[m],
    {
        proof {
            assert(i * w + w <= count * w) by (nonlinear_arith)
                requires
                    i + 1 <= count,
                    w >= 1,
            ;
            assert(0 <= i * w) by (nonlinear_arith)
                requires
                    i >= 0,
                    w >= 1,
            ;
            assert(data@.len() == data.len());
        }
        let bit_offset: usize = i * bit_width as usize;
        let byte_idx: usize = bit_offset / 8;
        let bit_idx: u16 = (bit_offset % 8) as u16;
        let hi: u8 = data[byte_idx];
        let lo: u8 = if byte_idx + 1 < data.len() {
            data[byte_idx + 1]
        } else {
            0
        };
        let combined: u16 = ((hi as u16) << 8) | (lo as u16);
        let shift: u16 = 16 - w16 - bit_idx;
        let x: u8 = #[verifier::truncate] (((combined >> shift) & mask) as u8);
        proof {
            assert(x == collect(hi, lo, w16, bit_idx));
            let p = i * w;
            assert forall|j: int| 0 <= j < 8 implies #[trigger] bit_of(x, j) == (j >= 8 - w
                && bit_at(data@, p + j - (8 - w))) by {
                lemma_collect_bits(hi, lo, w16, bit_idx, j);
            }
        }
        out[i] = x;
    }
}

/// Unpacks `count` indices of `bit_width` bits each.
pub fn unpack(data: &[u8], count: usize, bit_width: u8) -> (out: Vec<u8>)
    requires
        1 <= bit_width <= 8,
        count * bit_width <= usize::MAX,
        bytes_for(count * bit_width) <= data@.len(),
    ensures
        out@.len() == count,
        forall|i: int|
            0 <= i < count ==> spelled(
                data@,
                i * bit_width,
                bit_width as int,
                #[trigger] out@[i],
            ),
{
    let mut out: Vec<u8> = vec![0u8; count];
    unpack_into(data, count, bit_width, &mut out);
    out
}

/// Packs one bit per sign into the front of `out`.
pub fn pack_signs_into(signs: &[bool], out: &mut [u8])
    requires
        bytes_for(signs@.len() as int) <= old(out)@.len(),
    ensures
        final(out)@.len() == old(out)@.len(),
        packs_signs(final(out)@, signs@, signs@.len() as int),
        clear_bits(final(out)@, signs@.len() as int, 8 * bytes_for(signs@.len() as int)),
        forall|i: int|
            bytes_for(signs@.len() as int) <= i < old(out)@.len() ==> #[trigger] final(out)@[i]
                == old(out)@[i],
{
    let ghost before = out@;
    let need: usize = bytes_for_bits(signs.len());
    zero_prefix(out, need);
    proof {
        assert forall|p: int| 0 <= p < 8 * need implies !#[trigger] bit_at(out@, p) by {
            lemma_zero_bits(p % 8);
        }
    }
    for i in 0..signs.len()
        invariant
            need == bytes_for(signs@.len() as int),
            need <= before.len(),
            out@.len() == before.len(),
            packs_signs(out@, signs@, i as int),
            clear_bits(out@, i as int, 8 * need),
            forall|q: int| need <= q < before.len() ==> #[trigger] out@[q] == before[q],
    {
        if signs[i] {
            let byte_idx: usize = i / 8;
            let bit: u8 = (i % 8) as u8;
            let one: u8 = 1u8 << (7 - bit);
            let ghost first = out@;
            out[byte_idx] = out[byte_idx] | one;
            proof {
                assert forall|p: int| 0 <= p < 8 * need implies #[trigger] bit_at(out@, p) == (
                bit_at(first, p) || p == i) by {
                    lemma_or_at(first, byte_idx as int, one, p);
                    lemma_one_bit(bit, p % 8);
                }
            }
        }
    }
}

/// Packs one bit per sign into as many bytes as they need.
pub fn pack_signs(signs: &[bool]) -> (out: Vec<u8>)
    ensures
        out@.len() == bytes_for(signs@.len() as int),
        packs_signs(out@, signs@, signs@.len() as int),
        clear_bits(out@, signs@.len() as int, 8 * (out@.len() as int)),
{
    let mut out: Vec<u8> = vec![0u8; bytes_for_bits(signs.len())];
    pack_signs_into(signs, &mut out);
    out
}

/// Unpacks `count` signs into the front of `out`.
pub fn unpack_signs_into(data: &[u8], count: usize, out: &mut [bool])
    requires
        bytes_for(count as int) <= data@.len(),
        count <= old(out)@.len(),
    ensures
        final(out)@.len() == old(out)@.len(),
        packs_signs(data@, final(out)@, count as int),
        forall|i: int|
            count <= i < old(out)@.len() ==> #[trigger] final(out)@[i] == old(out)@[i],
{
    let ghost before = out@;
    for i in 0..count
        invariant
            bytes_for(count as int) <= data@.len(),
            out@.len() == before.len(),
            count <= before.len(),
            packs_signs(data@, out@, i as int),
            forall|m: int| count <= m < before.len() ==> #[trigger] out@[m] == before[m],
    {
        let bit: u8 = (i % 8) as u8;
        out[i] = (data[i / 8] >> (7 - bit)) & 1 == 1;
    }
}

/// Unpacking what was packed gives every index back, as far as it fits into
/// the bit width: the high bits of an index are dropped, the others are kept.
pub proof fn law_unpack_inverts_pack(
    bytes: Seq<u8>,
    indices: Seq<u8>,
    unpacked: Seq<u8>,
    bit_width: u8,
)
    requires
        1 <= bit_width <= 8,
        packs(bytes, indices, indices.len() as int, bit_width as int),
        unpacked.len() == indices.len(),
        forall|i: int|
            0 <= i < indices.len() ==> spelled(
                bytes,
                i * bit_width,
                bit_width as int,
                #[trigger] unpacked[i],
            ),
    ensures
        forall|i: int|
            0 <= i < indices.len() ==> #[trigger] unpacked[i] == indices[i] & (sub_one_shl(
                bit_width as u16,
            ) as u8),
        (forall|i: int|
            0 <= i < indices.len() ==> #[trigger] indices[i] <= sub_one_shl(bit_width as u16))
            ==> unpacked == indices,
{
    let w = bit_width as int;
    let w16 = bit_width as u16;
    let m = sub_one_shl(w16);
    assert((1u16 << w16) >= 1 && (1u16 << w16) <= 256) by (bit_vector)
        requires
            w16 <= 8,
    ;
    assert forall|i: int| 0 <= i < indices.len() implies #[trigger] unpacked[i] == indices[i] & (m
        as u8) by {
        let x = indices[i];
        let kept = x & (m as u8);
        assert forall|j: int| 0 <= j < 8 implies #[trigger] bit_of(unpacked[i], j) == bit_of(
            kept,
            j,
        ) by {
            let t = (7 - j) as u8;
            let j8 = j as u8;
            let m8 = m as u8;
            assert(((x & m8) >> t) & 1 == (if j8 + bit_width >= 8 {
                (x >> t) & 1
            } else {
                0
            })) by (bit_vector)
                requires
                    1 <= bit_width <= 8,
                    j8 < 8,
                    t == 7 - j8,
                    w16 == bit_width,
                    m == (1u16 << w16) - 1,
                    m8 == m as u8,
            ;
            if j >= 8 - w {
                let q = j - (8 - w);
                assert(bit_at(bytes, i * w + q) == bit_of(indices[i], 8 - w + q));
            }
        }
        lemma_same_bits(unpacked[i], kept);
    }
    if forall|i: int| 0 <= i < indices.len() ==> #[trigger] indices[i] <= m {
        assert forall|i: int| 0 <= i < indices.len() implies unpacked[i] == indices[i] by {
            let x = indices[i];
            assert(x <= m);
            assert(unpacked[i] == x & (m as u8));
            assert(x & (m as u8) == x) by (bit_vector)
                requires
                    1 <= bit_width <= 8,
                    w16 == bit_width,
                    m == (1u16 << w16) - 1,
                    x <= m,
            ;
        }
        assert(unpacked =~= indices);
    }
}

/// Packed bytes are determined by what they hold: two byte strings of one
/// length that pack the same indices, with the same clear bits behind them, are
/// equal.
pub proof fn law_packing_is_unique(
    a: Seq<u8>,
    b: Seq<u8>,
    indices: Seq<u8>,
    bit_width: u8,
)
    requires
        1 <= bit_width <= 8,
        a.len() == bytes_for(indices.len() * bit_width),
        b.len() == a.len(),
        packs(a, indices, indices.len() as int, bit_width as int),
        packs(b, indices, indices.len() as int, bit_width as int),
        clear_bits(a, indices.len() * bit_width, 8 * (a.len() as int)),
        clear_bits(b, indices.len() * bit_width, 8 * (b.len() as int)),
    ensures
        a == b,
{
    let w = bit_width as int;
    let n = indices.len() as int;
    assert forall|q: int| 0 <= q < a.len() implies #[trigger] a[q] == b[q] by {
        assert forall|k: int| 0 <= k < 8 implies #[trigger] bit_of(a[q], k) == bit_of(b[q], k) by {
            let p = 8 * q + k;
            assert(bit_at(a, p) == bit_of(a[q], k));
            assert(bit_at(b, p) == bit_of(b[q], k));
            if p < n * w {
                let i = p / w;
                let j = p % w;
                vstd::arithmetic::div_mod::lemma_fundamental_div_mod(p, w);
                assert(i * w + j == p) by (nonlinear_arith)
                    requires
                        p == w * i + j,
                ;
                assert(0 <= i < n) by (nonlinear_arith)
                    requires
                        i * w + j == p,
                        0 <= p < n * w,
                        0 <= j < w,
                ;
                assert(bit_at(a, i * w + j) == bit_of(indices[i], 8 - w + j));
                assert(bit_at(b, i * w + j) == bit_of(indices[i], 8 - w + j));
            }
        }
        lemma_same_bits(a[q], b[q]);
    }
    assert(a =~= b);
}

/// Unpacking packed signs gives the signs back.
pub proof fn law_unpack_signs_inverts_pack_signs(
    bytes: Seq<u8>,
    signs: Seq<bool>,
    unpacked: Seq<bool>,
)
    requires
        packs_signs(bytes, signs, signs.len() as int),
        unpacked.len() == signs.len(),
        packs_signs(bytes, unpacked, signs.len() as int),
    ensures
        unpacked == signs,
{
    assert forall|i: int| 0 <= i < signs.len() implies unpacked[i] == signs[i] by {
        assert(bit_at(bytes, i) == signs[i]);
        assert(bit_at(bytes, i) == unpacked[i]);
    }
    assert(unpacked =~= signs);
}

/// An index is spelled highest bit first: the bits are its binary digits.
pub proof fn law_indices_are_spelled_highest_bit_first(bytes: Seq<u8>, p: int, w: int, x: u8)
    requires
        1 <= w <= 8,
        spelled(bytes, p, w, x),
    ensures
        x == total(
            w as nat,
            |t: int|
                if bit_at(bytes, p + t) {
                    pow2((w - 1 - t) as nat) as int
                } else {
                    0
                },
        ),
{
    let term = |t: int|
        if bit_at(bytes, p + t) {
            pow2((w - 1 - t) as nat) as int
        } else {
            0
        };
    lemma2_to64();
    law_bits_are_binary_digits(x);
    assert forall|j: int| 0 <= j < 8 implies #[trigger] bit_of(x, j) == (j >= 8 - w && bit_at(
        bytes,
        p + j - (8 - w),
    )) by {}
    assert(bit_of(x, 0) == (0 >= 8 - w && bit_at(bytes, p + (w - 8))));
    assert(bit_of(x, 1) == (1 >= 8 - w && bit_at(bytes, p + (w - 7))));
    assert(bit_of(x, 2) == (2 >= 8 - w && bit_at(bytes, p + (w - 6))));
    assert(bit_of(x, 3) == (3 >= 8 - w && bit_at(bytes, p + (w - 5))));
    assert(bit_of(x, 4) == (4 >= 8 - w && bit_at(bytes, p + (w - 4))));
    assert(bit_of(x, 5) == (5 >= 8 - w && bit_at(bytes, p + (w - 3))));
    assert(bit_of(x, 6) == (6 >= 8 - w && bit_at(bytes, p + (w - 2))));
    assert(bit_of(x, 7) == bit_at(bytes, p + (w - 1)));
    lemma_total_step(0, term);
    lemma_total_step(1, term);
    lemma_total_step(2, term);
    lemma_total_step(3, term);
    lemma_total_step(4, term);
    lemma_total_step(5, term);
    lemma_total_step(6, term);
    lemma_total_step(7, term);
    if w == 1 {
        assert(total(1, term) == x);
    } else if w == 2 {
        assert(total(2, term) == x);
    } else if w == 3 {
        assert(total(3, term) == x);
    } else if w == 4 {
        assert(total(4, term) == x);
    } else if w == 5 {
        assert(total(5, term) == x);
    } else if w == 6 {
        assert(total(6, term) == x);
    } else if w == 7 {
        assert(total(7, term) == x);
    } else if w == 8 {
        assert(total(8, term) == x);
    }
}

} // verus!
