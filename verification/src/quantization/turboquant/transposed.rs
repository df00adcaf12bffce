//! Batches of sixteen encoded vectors, stored coordinate by coordinate.
//!
//! A batch of vectors with `d` coordinates has three slabs: `8 d` bytes with a
//! four-bit slot for each stage-1 index (sixteen slots per coordinate), `2 d`
//! bytes with one sign bit per vector and coordinate, and sixteen residual
//! norms as little-endian words. Slots of vectors that a batch does not hold
//! are zero.
use vstd::prelude::*;
use crate::bits::{
    bit_at, bit_of, bytes_for, le32_at, lemma_same_bits, lemma_zero_bits, read_le32, write_le32,
    le_byte, lemma_le32_at, lemma_one_bit,
};
use crate::quantization::turboquant::bitpack::{
    clear_bits, lemma_or_at, pack_into, pack_signs_into, spelled, unpack_into, unpack_signs_into,
    zero_prefix,
};
use crate::quantization::turboquant::record::{
    norm_start, read_norm, record_len, s1_bits, stage1_bytes, stage2_bytes, stage2_offset,
    stage2_start, write_norm,
};

verus! {

/// Vectors per batch.
pub const BATCH_DOCS: usize = 16;

/// Bit width of a batch unless another is asked for.
pub const TRANSPOSED_BIT_WIDTH: u8 = 4;

/// Bit widths whose stage-1 index fits a four-bit slot and fills it well.
pub const SUPPORTED_BIT_WIDTHS: [u8; 2] = [4, 5];

/// Stage-1 levels at a bit width of four.
pub const TRANSPOSED_CODEBOOK_LEVELS: usize = 8;

/// Bytes of the norm slab.
pub const GAMMAS_BYTES: usize = 64;

pub fn is_supported_bit_width(bw: u8) -> (r: bool)
    ensures
        r == (bw == 4 || bw == 5),
{
    SUPPORTED_BIT_WIDTHS[0] == bw || SUPPORTED_BIT_WIDTHS[1] == bw
}

/// Number of stage-1 codebook entries: two to the power of the index bits.
pub fn codebook_levels(bit_width: u8) -> (r: usize)
    requires
        1 <= bit_width <= usize::BITS,
    ensures
        r == vstd::arithmetic::power2::pow2((bit_width - 1) as nat),
{
    proof {
        let s = (bit_width - 1) as usize;
        vstd::bits::lemma_usize_pow2_no_overflow(s as nat);
        vstd::bits::lemma_usize_shl_is_mul(1, s);
    }
    1usize << (bit_width as usize - 1)
}

pub open spec fn batch_len(padded_dim: int) -> int {
    10 * padded_dim + 64
}

/// Bytes of the index slab.
pub fn stage1_t_bytes(padded_dim: usize) -> (r: usize)
    requires
        8 * padded_dim <= usize::MAX,
    ensures
        r == 8 * padded_dim,
{
    8 * padded_dim
}

/// Bytes of the sign slab.
pub fn stage2_t_bytes(padded_dim: usize) -> (r: usize)
    requires
        2 * padded_dim <= usize::MAX,
    ensures
        r == 2 * padded_dim,
{
    2 * padded_dim
}

/// Bytes of a batch.
pub fn batch_bytes(padded_dim: usize) -> (r: usize)
    requires
        batch_len(padded_dim as int) <= usize::MAX,
    ensures
        r == batch_len(padded_dim as int),
{
    stage1_t_bytes(padded_dim) + stage2_t_bytes(padded_dim) + GAMMAS_BYTES
}

/// Bytes of a cluster of `num_docs` vectors: their four-byte ids, then as many
/// whole batches as hold them.
pub fn cluster_bytes(num_docs: usize, padded_dim: usize) -> (r: usize)
    requires
        num_docs * 4 + ((num_docs + 15) / 16) * batch_len(padded_dim as int) <= usize::MAX,
        batch_len(padded_dim as int) <= usize::MAX,
    ensures
        r == num_docs * 4 + ((num_docs + 15) / 16) * batch_len(padded_dim as int),
{
    let nb: usize = num_docs / BATCH_DOCS + if num_docs % BATCH_DOCS == 0 {
        0
    } else {
        1
    };
    let bytes: usize = batch_bytes(padded_dim);
    proof {
        assert(nb == (num_docs + 15) / 16);
        assert(nb * bytes >= 0) by (nonlinear_arith);
    }
    num_docs * 4 + nb * bytes
}

/// Offset of the sign slab in a batch.
pub fn batch_stage2_t_offset(padded_dim: usize) -> (r: usize)
    requires
        8 * padded_dim <= usize::MAX,
    ensures
        r == 8 * padded_dim,
{
    stage1_t_bytes(padded_dim)
}

/// Offset of the norm slab in a batch.
pub fn batch_gammas_offset(padded_dim: usize) -> (r: usize)
    requires
        10 * padded_dim <= usize::MAX,
    ensures
        r == 10 * padded_dim,
{
    stage1_t_bytes(padded_dim) + stage2_t_bytes(padded_dim)
}

/// Bit `p` of the index and sign slabs of a batch that holds `records`, whose
/// stage-1 indices have `w` bits.
pub open spec fn slab_bit(
    records: Seq<Seq<u8>>,
    d: int,
    w: int,
    signs_at: int,
    n: int,
    p: int,
) -> bool {
    if p < 64 * d {
        let slot = p / 4 % 16;
        let j = p % 4 - (4 - w);
        slot < n && j >= 0 && bit_at(records[slot], p / 64 * w + j)
    } else {
        let slot = (p - 64 * d) % 16;
        slot < n && bit_at(records[slot], 8 * signs_at + (p - 64 * d) / 16)
    }
}

/// `batch` holds `records`, each of bit width `bit_width` with `d`
/// coordinates, in its first slots, and zeros in the others.
pub open spec fn is_batch_of(batch: Seq<u8>, records: Seq<Seq<u8>>, d: int, bit_width: u8) -> bool {
    let n = records.len() as int;
    &&& batch.len() == batch_len(d)
    &&& forall|p: int|
        0 <= p < 80 * d ==> #[trigger] bit_at(batch, p) == slab_bit(
            records,
            d,
            s1_bits(bit_width),
            stage2_start(d, bit_width),
            n,
            p,
        )
    &&& forall|slot: int|
        0 <= slot < 16 ==> #[trigger] le32_at(batch, 10 * d + 4 * slot) == if slot < n {
            le32_at(records[slot], norm_start(d, bit_width))
        } else {
            0
        }
}

/// The bits of a small number and of the same number in the upper nibble.
proof fn lemma_nibble_bits(x: u8, k: int)
    requires
        x < 16,
        0 <= k < 8,
    ensures
        bit_of(x << 4, k) == (k < 4 && bit_of(x, k + 4)),
        k < 4 ==> !bit_of(x, k),
{
    let t = (7 - k) as u8;
    if k < 4 {
        let u = (7 - (k + 4)) as u8;
        assert((((x << 4) >> t) & 1 == 1) == ((x >> u) & 1 == 1) && (x >> t) & 1 == 0) by (bit_vector)
            requires
                x < 16,
                4 <= t < 8,
                u == t - 4,
        ;
    } else {
        assert(((x << 4) >> t) & 1 == 0) by (bit_vector)
            requires
                x < 16,
                t < 4,
        ;
    }
}

/// A byte whose upper four bits are clear is below sixteen.
proof fn lemma_small(x: u8)
    requires
        forall|j: int| 0 <= j < 4 ==> !#[trigger] bit_of(x, j),
    ensures
        x < 16,
{
    assert(!bit_of(x, 0) && !bit_of(x, 1) && !bit_of(x, 2) && !bit_of(x, 3));
    assert(x < 16) by (bit_vector)
        requires
            (x >> 7) & 1 != 1,
            (x >> 6) & 1 != 1,
            (x >> 5) & 1 != 1,
            (x >> 4) & 1 != 1,
    ;
}

/// Which bits belong to the index slot `slot` of coordinate `c`: one nibble of
/// one byte.
proof fn lemma_index_place(p: int, c: int, slot: int)
    requires
        0 <= p,
        0 <= c,
        0 <= slot < 16,
    ensures
        p / 64 == c && p / 4 % 16 == slot <==> p / 8 == c * 8 + slot / 2 && p % 8 / 4 == slot % 2,
        p % 8 == 4 * (p % 8 / 4) + p % 4,
        p < 64 * (c + 1) <==> p / 64 <= c,
        p < 64 * c <==> p / 64 < c,
{
    let a = p / 4;
    let e = a / 16;
    let f = a % 16;
    assert(p / 64 == e && p / 8 == a / 2 && p % 8 / 4 == a % 2);
    assert(a == 16 * e + f && a / 2 == 8 * e + f / 2 && a % 2 == f % 2);
    if 8 * e + f / 2 == 8 * c + slot / 2 {
        assert(e == c);
        assert(f / 2 == slot / 2);
        if f % 2 == slot % 2 {
            assert(f == slot);
        }
    }
}

/// Sets the index slots of one vector, which must be clear.
fn place_indices(out: &mut [u8], indices: &[u8], d: usize, slot: usize)
    requires
        slot < 16,
        indices@.len() == d,
        old(out)@.len() == batch_len(d as int),
        forall|c: int| 0 <= c < d ==> #[trigger] indices@[c] < 16,
        forall|p: int|
            0 <= p < 64 * d && p / 4 % 16 == slot ==> !#[trigger] bit_at(old(out)@, p),
    ensures
        final(out)@.len() == old(out)@.len(),
        forall|p: int|
            0 <= p < 80 * d ==> #[trigger] bit_at(final(out)@, p) == if p < 64 * d && p / 4 % 16
                == slot {
                bit_of(indices@[p / 64], 4 + p % 4)
            } else {
                bit_at(old(out)@, p)
            },
        forall|i: int| 10 * d <= i < old(out)@.len() ==> #[trigger] final(out)@[i] == old(out)@[i],
{
    let ghost before = out@;
    for c in 0..d
        invariant
            slot < 16,
            indices@.len() == d,
            before.len() == batch_len(d as int),
            out@.len() == before.len(),
            forall|c: int| 0 <= c < d ==> #[trigger] indices@[c] < 16,
            forall|p: int|
                0 <= p < 64 * d && p / 4 % 16 == slot ==> !#[trigger] bit_at(before, p),
            forall|p: int|
                0 <= p < 80 * d ==> #[trigger] bit_at(out@, p) == if p < 64 * c && p / 4 % 16
                    == slot {
                    bit_of(indices@[p / 64], 4 + p % 4)
                } else {
                    bit_at(before, p)
                },
            forall|i: int| 10 * d <= i < before.len() ==> #[trigger] out@[i] == before[i],
    {
        let x: u8 = indices[c];
        proof {
            assert(out@.len() == out.len());
        }
        let at: usize = c * 8 + slot / 2;
        let b: u8 = if slot % 2 == 0 {
            x << 4
        } else {
            x
        };
        let ghost first = out@;
        out[at] = out[at] | b;
        proof {
            assert forall|p: int| 0 <= p < 80 * d implies #[trigger] bit_at(out@, p) == if p < 64
                * (c + 1) && p / 4 % 16 == slot {
                bit_of(indices@[p / 64], 4 + p % 4)
            } else {
                bit_at(before, p)
            } by {
                lemma_or_at(first, at as int, b, p);
                lemma_nibble_bits(x, p % 8);
                lemma_index_place(p, c as int, slot as int);
                if p / 64 == c && p / 4 % 16 == slot {
                    assert(!bit_at(before, p));
                }
            }
        }
    }
}

/// Sets the sign bits of one vector, which must be clear.
fn place_signs(out: &mut [u8], signs: &[bool], d: usize, slot: usize)
    requires
        slot < 16,
        signs@.len() == d,
        old(out)@.len() == batch_len(d as int),
        forall|p: int|
            64 * d <= p < 80 * d && (p - 64 * d) % 16 == slot ==> !#[trigger] bit_at(old(out)@, p),
    ensures
        final(out)@.len() == old(out)@.len(),
        forall|p: int|
            0 <= p < 80 * d ==> #[trigger] bit_at(final(out)@, p) == if p >= 64 * d && (p - 64 * d)
                % 16 == slot {
                signs@[(p - 64 * d) / 16]
            } else {
                bit_at(old(out)@, p)
            },
        forall|i: int| 10 * d <= i < old(out)@.len() ==> #[trigger] final(out)@[i] == old(out)@[i],
{
    let ghost before = out@;
    for c in 0..d
        invariant
            slot < 16,
            signs@.len() == d,
            before.len() == batch_len(d as int),
            out@.len() == before.len(),
            forall|p: int|
                64 * d <= p < 80 * d && (p - 64 * d) % 16 == slot ==> !#[trigger] bit_at(before, p),
            forall|p: int|
                0 <= p < 80 * d ==> #[trigger] bit_at(out@, p) == if p >= 64 * d && (p - 64 * d)
                    % 16 == slot && (p - 64 * d) / 16 < c {
                    signs@[(p - 64 * d) / 16]
                } else {
                    bit_at(before, p)
                },
            forall|i: int| 10 * d <= i < before.len() ==> #[trigger] out@[i] == before[i],
    {
        let ghost first = out@;
        proof {
            assert(out@.len() == out.len());
        }
        if signs[c] {
            let at: usize = 8 * d + c * 2 + slot / 8;
            let bit: u8 = (slot % 8) as u8;
            let one: u8 = 1u8 << (7 - bit);
            out[at] = out[at] | one;
            proof {
                assert forall|p: int| 0 <= p < 80 * d implies #[trigger] bit_at(out@, p) == (bit_at(
                    first,
                    p,
                ) || p == 64 * d + 16 * c + slot) by {
                    lemma_or_at(first, at as int, one, p);
                    lemma_one_bit(bit, p % 8);
                }
            }
        }
        proof {
            assert forall|p: int| 0 <= p < 80 * d implies #[trigger] bit_at(out@, p) == if p >= 64
                * d && (p - 64 * d) % 16 == slot && (p - 64 * d) / 16 < c + 1 {
                signs@[(p - 64 * d) / 16]
            } else {
                bit_at(before, p)
            } by {
                assert(bit_at(out@, p) == (bit_at(first, p) || (signs@[c as int] && p == 64 * d + 16
                    * c + slot)));
                if p >= 64 * d && (p - 64 * d) % 16 == slot && (p - 64 * d) / 16 == c {
                    assert(p == 64 * d + 16 * c + slot);
                    assert(!bit_at(before, p));
                }
            }
        }
    }
}

/// The bytes of each record.
pub open spec fn views(records: Seq<&[u8]>) -> Seq<Seq<u8>> {
    Seq::new(records.len(), |i: int| records[i]@)
}

/// Stores up to sixteen records in one batch.
pub fn encode_batch(records: &[&[u8]], padded_dim: usize, bit_width: u8, out: &mut [u8])
    requires
        bit_width == 4 || bit_width == 5,
        records@.len() <= 16,
        old(out)@.len() == batch_len(padded_dim as int),
        forall|i: int|
            0 <= i < records@.len() ==> (#[trigger] records@[i])@.len() == record_len(
                padded_dim as int,
                bit_width,
            ),
    ensures
        is_batch_of(final(out)@, views(records@), padded_dim as int, bit_width),
{
    let ghost d = padded_dim as int;
    let ghost recs = views(records@);
    let ghost w = s1_bits(bit_width);
    let ghost signs_at = stage2_start(d, bit_width);
    proof {
        assert(out@.len() == out.len());
        assert(d * w == if w == 3 {
            3 * d
        } else {
            4 * d
        }) by (nonlinear_arith)
            requires
                w == 3 || w == 4,
        ;
    }
    let len: usize = out.len();
    zero_prefix(out, len);
    let mut idx_buf: Vec<u8> = vec![0u8; padded_dim];
    let mut sign_buf: Vec<bool> = vec![false; padded_dim];
    proof {
        assert forall|p: int| 0 <= p < 80 * d implies !#[trigger] bit_at(out@, p) by {
            lemma_zero_bits(p % 8);
        }
        assert forall|slot: int| 0 <= slot < 16 implies #[trigger] le32_at(out@, 10 * d + 4 * slot)
            == 0 by {
            assert(0u32 | (0u32 << 8) | (0u32 << 16) | (0u32 << 24) == 0) by (bit_vector);
        }
    }
    for slot in 0..records.len()
        invariant
            bit_width == 4 || bit_width == 5,
            d == padded_dim,
            recs == views(records@),
            w == s1_bits(bit_width),
            signs_at == stage2_start(d, bit_width),
            d * w == if w == 3 {
                3 * d
            } else {
                4 * d
            },
            records@.len() <= 16,
            batch_len(d) <= usize::MAX,
            out@.len() == batch_len(d),
            idx_buf@.len() == d,
            sign_buf@.len() == d,
            forall|i: int|
                0 <= i < records@.len() ==> (#[trigger] records@[i])@.len() == record_len(
                    d,
                    bit_width,
                ),
            forall|p: int|
                0 <= p < 80 * d ==> #[trigger] bit_at(out@, p) == slab_bit(
                    recs,
                    d,
                    w,
                    signs_at,
                    slot as int,
                    p,
                ),
            forall|s: int|
                0 <= s < 16 ==> #[trigger] le32_at(out@, 10 * d + 4 * s) == if s < slot {
                    le32_at(recs[s], norm_start(d, bit_width))
                } else {
                    0
                },
    {
        let rec: &[u8] = records[slot];
        let ghost before = out@;
        let s1 = stage1_bytes(rec, padded_dim, bit_width);
        unpack_into(s1, padded_dim, bit_width - 1, &mut idx_buf);
        proof {
            assert forall|c: int| 0 <= c < d implies #[trigger] idx_buf@[c] < 16 by {
                assert(spelled(s1@, c * w, w, idx_buf@[c]));
                lemma_small(idx_buf@[c]);
            }
            assert forall|p: int| 0 <= p < 64 * d && p / 4 % 16 == slot implies !#[trigger] bit_at(
                out@,
                p,
            ) by {}
        }
        place_indices(out, &idx_buf, padded_dim, slot);
        let ghost middle = out@;
        let s2 = stage2_bytes(rec, padded_dim, bit_width);
        unpack_signs_into(s2, padded_dim, &mut sign_buf);
        proof {
            assert forall|p: int| 64 * d <= p < 80 * d && (p - 64 * d) % 16 == slot implies
                !#[trigger] bit_at(out@, p) by {
                assert(bit_at(middle, p) == bit_at(before, p));
            }
        }
        place_signs(out, &sign_buf, padded_dim, slot);
        let ghost third = out@;
        let gamma: u32 = read_norm(rec, padded_dim, bit_width);
        write_le32(out, 10 * padded_dim + 4 * slot, gamma);
        proof {
            assert forall|p: int| 0 <= p < 80 * d implies #[trigger] bit_at(out@, p) == slab_bit(
                recs,
                d,
                w,
                signs_at,
                slot + 1,
                p,
            ) by {
                assert(out@[p / 8] == third[p / 8]);
                assert(bit_at(third, p) == bit_at(out@, p));
                assert(bit_at(before, p) == slab_bit(recs, d, w, signs_at, slot as int, p));
                if p < 64 * d && p / 4 % 16 == slot {
                    let c = p / 64;
                    let x = idx_buf@[c];
                    assert(spelled(s1@, c * w, w, x));
                    let j = 4 + p % 4;
                    assert(bit_of(x, j) == (j >= 8 - w && bit_at(s1@, c * w + j - (8 - w))));
                    let q = c * w + j - (8 - w);
                    if j >= 8 - w {
                        assert(0 <= c * w && c * w + w <= d * w) by (nonlinear_arith)
                            requires
                                0 <= c,
                                c + 1 <= d,
                                w >= 0,
                        ;
                        assert(s1@[q / 8] == rec@[q / 8]);
                        assert(bit_at(s1@, q) == bit_at(rec@, q));
                    }
                } else if p >= 64 * d && (p - 64 * d) % 16 == slot {
                    let c = (p - 64 * d) / 16;
                    assert(bit_at(s2@, c) == sign_buf@[c]);
                    assert(s2@[c / 8] == rec@[signs_at + c / 8]);
                    assert(bit_at(rec@, 8 * signs_at + c) == bit_at(s2@, c));
                } else {
                    assert(bit_at(third, p) == bit_at(before, p));
                }
            }
            assert forall|s: int| 0 <= s < 16 implies #[trigger] le32_at(out@, 10 * d + 4 * s)
                == if s < slot + 1 {
                le32_at(recs[s], norm_start(d, bit_width))
            } else {
                0
            } by {
                if s != slot {
                    let a = 10 * d + 4 * s;
                    assert(le32_at(before, a) == le32_at(out@, a));
                }
            }
        }
    }
}

/// The four bits that a batch holds for `slot` at coordinate `c`.
pub open spec fn nibble_at(batch: Seq<u8>, c: int, slot: int) -> u8 {
    let b = batch[8 * c + slot / 2];
    if slot % 2 == 0 {
        b >> 4
    } else {
        b & 0x0f
    }
}

/// The four bits of a slot spell the number that is read there.
pub proof fn lemma_nibble_spelled(s1_t: Seq<u8>, c: int, slot: int)
    requires
        0 <= slot < 16,
        0 <= c,
    ensures
        spelled(s1_t, 64 * c + 4 * slot, 4, nibble_at(s1_t, c, slot)),
        nibble_at(s1_t, c, slot) < 16,
{
    let b = s1_t[8 * c + slot / 2];
    let x = nibble_at(s1_t, c, slot);
    assert(b >> 4 < 16 && b & 0x0f < 16) by (bit_vector);
    assert forall|j: int| 0 <= j < 8 implies #[trigger] bit_of(x, j) == (j >= 4 && bit_at(
        s1_t,
        64 * c + 4 * slot + j - 4,
    )) by {
        lemma_nibble_bits(x, j);
        let p = 64 * c + 4 * slot + j - 4;
        let t = (7 - j) as u8;
        if j >= 4 {
            if slot % 2 == 0 {
                let u = (7 - (j - 4)) as u8;
                assert(((b >> 4) >> t) & 1 == (b >> u) & 1) by (bit_vector)
                    requires
                        t < 4,
                        u == t + 4,
                ;
                assert(p % 8 == j - 4);
            } else {
                assert(((b & 0x0f) >> t) & 1 == (b >> t) & 1) by (bit_vector)
                    requires
                        t < 4,
                ;
                assert(p % 8 == j);
            }
            assert(p / 8 == c * 8 + slot / 2);
        }
    }
}

/// The stage-1 index of the vector in `slot` at coordinate `c`.
pub fn batch_stage1_index(s1_t: &[u8], c: usize, slot: usize) -> (x: u8)
    requires
        slot < 16,
        8 * c + 8 <= s1_t@.len(),
    ensures
        spelled(s1_t@, 64 * c + 4 * slot, 4, x),
        x < 16,
        x == nibble_at(s1_t@, c as int, slot as int),
{
    proof {
        assert(s1_t@.len() == s1_t.len());
    }
    let b: u8 = s1_t[c * 8 + slot / 2];
    let x: u8 = if slot % 2 == 0 {
        b >> 4
    } else {
        b & 0x0f
    };
    proof {
        lemma_nibble_spelled(s1_t@, c as int, slot as int);
    }
    x
}

/// The sign bit of the vector in `slot` at coordinate `c`.
pub fn batch_stage2_sign(s2_t: &[u8], c: usize, slot: usize) -> (s: u8)
    requires
        slot < 16,
        2 * c + 2 <= s2_t@.len(),
    ensures
        s == if bit_at(s2_t@, 16 * c + slot) {
            1u8
        } else {
            0
        },
{
    proof {
        assert(s2_t@.len() == s2_t.len());
    }
    let b: u8 = s2_t[2 * c + slot / 8];
    let t: u8 = 7 - (slot % 8) as u8;
    proof {
        assert((b >> t) & 1 == 0 || (b >> t) & 1 == 1) by (bit_vector);
        assert((16 * c + slot) / 8 == 2 * c + slot / 8);
    }
    (b >> t) & 1
}

/// The residual norm of the vector in `slot`, as a bit pattern.
pub fn batch_gamma(gammas: &[u8], slot: usize) -> (gamma: u32)
    requires
        slot < 16,
        4 * slot + 4 <= gammas@.len(),
    ensures
        gamma == le32_at(gammas@, 4 * slot),
{
    proof {
        assert(gammas@.len() == gammas.len());
    }
    read_le32(gammas, slot * 4)
}

/// Where a batch holds bit `p` of the packed indices of the record in `slot`.
pub open spec fn index_bit_in_batch(slot: int, w: int, p: int) -> int {
    64 * (p / w) + 4 * slot + (4 - w) + p % w
}

/// `record` holds what the batch holds in `slot`.
pub open spec fn is_record_of(
    record: Seq<u8>,
    batch: Seq<u8>,
    slot: int,
    d: int,
    bit_width: u8,
) -> bool {
    let w = s1_bits(bit_width);
    let signs_at = stage2_start(d, bit_width);
    let norm_at = norm_start(d, bit_width);
    &&& forall|p: int|
        0 <= p < d * w ==> #[trigger] bit_at(record, p) == bit_at(
            batch,
            index_bit_in_batch(slot, w, p),
        )
    &&& clear_bits(record, d * w, 8 * signs_at)
    &&& forall|c: int|
        0 <= c < d ==> #[trigger] bit_at(record, 8 * signs_at + c) == bit_at(
            batch,
            64 * d + 16 * c + slot,
        )
    &&& clear_bits(record, 8 * signs_at + d, 8 * norm_at)
    &&& le32_at(record, norm_at) == le32_at(batch, 10 * d + 4 * slot)
}

/// Reads the record of one slot back out of a batch.
pub fn extract_record(batch: &[u8], slot: usize, padded_dim: usize, bit_width: u8, out: &mut [u8])
    requires
        bit_width == 4 || bit_width == 5,
        slot < 16,
        batch_len(padded_dim as int) <= batch@.len(),
        record_len(padded_dim as int, bit_width) <= old(out)@.len(),
    ensures
        final(out)@.len() == old(out)@.len(),
        is_record_of(final(out)@, batch@, slot as int, padded_dim as int, bit_width),
        forall|p: int|
            record_len(padded_dim as int, bit_width) <= p < old(out)@.len() ==> #[trigger] final(
                out)@[p] == old(out)@[p],
{
    let ghost d = padded_dim as int;
    let ghost w = s1_bits(bit_width);
    let ghost signs_at = stage2_start(d, bit_width);
    let ghost norm_at = norm_start(d, bit_width);
    let ghost before = out@;
    proof {
        assert(out@.len() == out.len());
        assert(batch@.len() == batch.len());
        assert(d * w == if w == 3 {
            3 * d
        } else {
            4 * d
        }) by (nonlinear_arith)
            requires
                w == 3 || w == 4,
        ;
    }
    let s1_len: usize = stage1_t_bytes(padded_dim);
    let s2_end: usize = batch_gammas_offset(padded_dim);
    let s1_t = &batch[0..s1_len];
    let s2_t = &batch[s1_len..s2_end];
    let gammas = &batch[s2_end..batch.len()];
    let mut indices: Vec<u8> = vec![0u8; padded_dim];
    let mut signs: Vec<bool> = vec![false; padded_dim];
    for c in 0..padded_dim
        invariant
            d == padded_dim,
            slot < 16,
            s1_t@.len() == 8 * d,
            s2_t@.len() == 2 * d,
            indices@.len() == d,
            signs@.len() == d,
            forall|m: int|
                0 <= m < c ==> spelled(s1_t@, 64 * m + 4 * slot, 4, #[trigger] indices@[m]),
            forall|m: int| 0 <= m < c ==> #[trigger] signs@[m] == bit_at(s2_t@, 16 * m + slot),
    {
        indices[c] = batch_stage1_index(s1_t, c, slot);
        signs[c] = batch_stage2_sign(s2_t, c, slot) == 1;
    }
    let gamma: u32 = batch_gamma(gammas, slot);
    let s1_end: usize = stage2_offset(padded_dim, bit_width);
    pack_into(&indices, bit_width - 1, out);
    let ghost packed = out@;
    let ghost mut tail: Seq<u8> = Seq::empty();
    {
        let (front, back) = out.split_at_mut(s1_end);
        pack_signs_into(&signs, back);
        proof {
            tail = back@;
        }
    }
    let ghost signed = out@;
    write_norm(out, padded_dim, bit_width, gamma);
    proof {
        assert forall|p: int| 0 <= p < signs_at implies #[trigger] signed[p] == packed[p] by {}
        assert forall|p: int| 0 <= p < d * w implies #[trigger] bit_at(out@, p) == bit_at(
            batch@,
            index_bit_in_batch(slot as int, w, p),
        ) by {
            lemma_cut(p, w, d);
            let c = p / w;
            let j = p % w;
            assert(out@[p / 8] == packed[p / 8]);
            assert(bit_at(packed, c * w + j) == bit_of(indices@[c], 8 - w + j));
            let x = indices@[c];
            assert(spelled(s1_t@, 64 * c + 4 * slot, 4, x));
            let q = 64 * c + 4 * slot + (8 - w + j) - 4;
            assert(bit_of(x, 8 - w + j) == bit_at(s1_t@, q));
            assert(s1_t@[q / 8] == batch@[q / 8]);
        }
        assert forall|p: int| d * w <= p < 8 * signs_at implies !#[trigger] bit_at(out@, p) by {
            assert(out@[p / 8] == packed[p / 8]);
            assert(!bit_at(packed, p));
        }
        assert(tail =~= signed.subrange(signs_at, signed.len() as int));
        assert forall|c: int| 0 <= c < 8 * bytes_for(d) implies #[trigger] bit_at(
            out@,
            8 * signs_at + c,
        ) == bit_at(tail, c) by {
            assert(out@[signs_at + c / 8] == tail[c / 8]);
            assert((8 * signs_at + c) / 8 == signs_at + c / 8);
        }
        assert forall|c: int| 0 <= c < d implies #[trigger] bit_at(out@, 8 * signs_at + c)
            == bit_at(batch@, 64 * d + 16 * c + slot) by {
            assert(bit_at(tail, c) == signs@[c]);
            let q = 16 * c + slot;
            assert(s2_t@[q / 8] == batch@[8 * d + q / 8]);
            assert((64 * d + 16 * c + slot) / 8 == 8 * d + q / 8);
        }
        assert forall|p: int| 8 * signs_at + d <= p < 8 * norm_at implies !#[trigger] bit_at(
            out@,
            p,
        ) by {
            let c = p - 8 * signs_at;
            assert(!bit_at(tail, c));
            assert(bit_at(out@, 8 * signs_at + c) == bit_at(tail, c));
        }
        assert(le32_at(gammas@, 4 * slot) == le32_at(batch@, 10 * d + 4 * slot));
        assert forall|p: int| record_len(d, bit_width) <= p < before.len() implies
            #[trigger] out@[p] == before[p] by {
            assert(signed[p] == packed[p]);
            assert(packed[p] == before[p]);
        }
    }
}

/// Bit `p` of packed indices of `w` bits belongs to index `p / w`.
proof fn lemma_cut(p: int, w: int, d: int)
    requires
        w == 3 || w == 4,
        0 <= p < d * w,
    ensures
        p / w * w + p % w == p,
        0 <= p / w < d,
        0 <= p % w < w,
{
    if w == 3 {
        assert(p / w * w == 3 * (p / 3)) by (nonlinear_arith)
            requires
                w == 3,
        ;
        assert(d * w == 3 * d) by (nonlinear_arith)
            requires
                w == 3,
        ;
    } else {
        assert(p / w * w == 4 * (p / 4)) by (nonlinear_arith)
            requires
                w == 4,
        ;
        assert(d * w == 4 * d) by (nonlinear_arith)
            requires
                w == 4,
        ;
    }
}

/// A record as the encoder writes it: the bits that fill the last byte of the
/// indices and of the signs are clear.
pub open spec fn is_padded_record(record: Seq<u8>, d: int, bit_width: u8) -> bool {
    let w = s1_bits(bit_width);
    let signs_at = stage2_start(d, bit_width);
    &&& record.len() == record_len(d, bit_width)
    &&& clear_bits(record, d * w, 8 * signs_at)
    &&& clear_bits(record, 8 * signs_at + d, 8 * norm_start(d, bit_width))
}

/// The pieces of a bit position in the index slab.
pub proof fn lemma_index_pieces(c: int, slot: int, j: int)
    requires
        0 <= c,
        0 <= slot < 16,
        0 <= j < 4,
    ensures
        (64 * c + 4 * slot + j) / 64 == c,
        (64 * c + 4 * slot + j) / 4 % 16 == slot,
        (64 * c + 4 * slot + j) % 4 == j,
{
}

/// A batch holds the packed index bits of its records.
pub proof fn lemma_batch_index_bit(
    batch: Seq<u8>,
    records: Seq<Seq<u8>>,
    slot: int,
    d: int,
    bit_width: u8,
    p: int,
)
    requires
        bit_width == 4 || bit_width == 5,
        0 <= slot < 16,
        is_batch_of(batch, records, d, bit_width),
        0 <= p < d * s1_bits(bit_width),
    ensures
        bit_at(batch, index_bit_in_batch(slot, s1_bits(bit_width), p)) == (slot < records.len()
            && bit_at(records[slot], p)),
{
    let w = s1_bits(bit_width);
    lemma_cut(p, w, d);
    let c = p / w;
    let j = p % w;
    let b = index_bit_in_batch(slot, w, p);
    lemma_index_pieces(c, slot, 4 - w + j);
    assert(b == 64 * c + 4 * slot + (4 - w + j));
    assert(bit_at(batch, b) == slab_bit(
        records,
        d,
        w,
        stage2_start(d, bit_width),
        records.len() as int,
        b,
    ));
}

/// A batch holds the sign bits of its records.
pub proof fn lemma_batch_sign_bit(
    batch: Seq<u8>,
    records: Seq<Seq<u8>>,
    slot: int,
    d: int,
    bit_width: u8,
    c: int,
)
    requires
        0 <= slot < 16,
        is_batch_of(batch, records, d, bit_width),
        0 <= c < d,
    ensures
        bit_at(batch, 64 * d + 16 * c + slot) == (slot < records.len() && bit_at(
            records[slot],
            8 * stage2_start(d, bit_width) + c,
        )),
{
    let b = 64 * d + 16 * c + slot;
    assert(bit_at(batch, b) == slab_bit(
        records,
        d,
        s1_bits(bit_width),
        stage2_start(d, bit_width),
        records.len() as int,
        b,
    ));
    assert((b - 64 * d) % 16 == slot && (b - 64 * d) / 16 == c);
}

/// An extracted record has the bits of the stored one, and clear bits where
/// indices and signs do not fill a byte.
proof fn lemma_extracted_bit(
    batch: Seq<u8>,
    records: Seq<Seq<u8>>,
    slot: int,
    d: int,
    bit_width: u8,
    extracted: Seq<u8>,
    p: int,
)
    requires
        bit_width == 4 || bit_width == 5,
        d >= 0,
        0 <= slot < 16,
        is_batch_of(batch, records, d, bit_width),
        is_record_of(extracted, batch, slot, d, bit_width),
        0 <= p < 8 * norm_start(d, bit_width),
    ensures
        bit_at(extracted, p) == (slot < records.len() && (p < d * s1_bits(bit_width) || 8
            * stage2_start(d, bit_width) <= p < 8 * stage2_start(d, bit_width) + d) && bit_at(
            records[slot],
            p,
        )),
{
    let w = s1_bits(bit_width);
    let signs_at = stage2_start(d, bit_width);
    assert(d * w <= 8 * signs_at);
    if p < d * w {
        lemma_batch_index_bit(batch, records, slot, d, bit_width, p);
        assert(bit_at(extracted, p) == bit_at(batch, index_bit_in_batch(slot, w, p)));
    } else if p < 8 * signs_at {
        assert(!bit_at(extracted, p));
    } else if p < 8 * signs_at + d {
        let c = p - 8 * signs_at;
        lemma_batch_sign_bit(batch, records, slot, d, bit_width, c);
        assert(bit_at(extracted, 8 * signs_at + c) == bit_at(batch, 64 * d + 16 * c + slot));
    } else {
        assert(!bit_at(extracted, p));
    }
}

/// Extracting a slot of a batch gives back the record that was stored there,
/// byte for byte.
pub proof fn law_extract_inverts_encode(
    batch: Seq<u8>,
    records: Seq<Seq<u8>>,
    slot: int,
    d: int,
    bit_width: u8,
    extracted: Seq<u8>,
)
    requires
        bit_width == 4 || bit_width == 5,
        d >= 0,
        0 <= slot < records.len() <= 16,
        is_batch_of(batch, records, d, bit_width),
        is_padded_record(records[slot], d, bit_width),
        extracted.len() == record_len(d, bit_width),
        is_record_of(extracted, batch, slot, d, bit_width),
    ensures
        extracted == records[slot],
{
    let norm_at = norm_start(d, bit_width);
    let rec = records[slot];
    assert forall|q: int| 0 <= q < rec.len() implies #[trigger] extracted[q] == rec[q] by {
        if q < norm_at {
            assert forall|k: int| 0 <= k < 8 implies #[trigger] bit_of(extracted[q], k) == bit_of(
                rec[q],
                k,
            ) by {
                let p = 8 * q + k;
                lemma_extracted_bit(batch, records, slot, d, bit_width, extracted, p);
                assert(bit_at(extracted, p) == bit_of(extracted[q], k));
                assert(bit_at(rec, p) == bit_of(rec[q], k));
            }
            lemma_same_bits(extracted[q], rec[q]);
        } else {
            let x = le32_at(rec, norm_at);
            assert(le32_at(batch, 10 * d + 4 * slot) == x);
            lemma_le32_at(rec, norm_at, x);
            lemma_le32_at(extracted, norm_at, x);
            assert(rec[norm_at + (q - norm_at)] == le_byte(x, q - norm_at));
            assert(extracted[norm_at + (q - norm_at)] == le_byte(x, q - norm_at));
        }
    }
    assert(extracted =~= rec);
}

/// Extracting a slot that the batch does not use gives a record of zeros.
pub proof fn law_unused_slots_are_zero(
    batch: Seq<u8>,
    records: Seq<Seq<u8>>,
    slot: int,
    d: int,
    bit_width: u8,
    extracted: Seq<u8>,
)
    requires
        bit_width == 4 || bit_width == 5,
        d >= 0,
        records.len() <= slot < 16,
        is_batch_of(batch, records, d, bit_width),
        extracted.len() == record_len(d, bit_width),
        is_record_of(extracted, batch, slot, d, bit_width),
    ensures
        forall|q: int| 0 <= q < extracted.len() ==> #[trigger] extracted[q] == 0,
{
    let norm_at = norm_start(d, bit_width);
    assert forall|q: int| 0 <= q < extracted.len() implies #[trigger] extracted[q] == 0 by {
        if q < norm_at {
            assert forall|k: int| 0 <= k < 8 implies #[trigger] bit_of(extracted[q], k) == bit_of(
                0,
                k,
            ) by {
                let p = 8 * q + k;
                lemma_zero_bits(k);
                lemma_extracted_bit(batch, records, slot, d, bit_width, extracted, p);
                assert(bit_at(extracted, p) == bit_of(extracted[q], k));
            }
            lemma_same_bits(extracted[q], 0);
        } else {
            assert(le32_at(batch, 10 * d + 4 * slot) == 0);
            lemma_le32_at(extracted, norm_at, 0);
            let i = q - norm_at;
            assert(extracted[norm_at + i] == le_byte(0, i));
            let t = (8 * i) as u32;
            assert((0u32 >> t) as u8 == 0) by (bit_vector)
                requires
                    t < 32,
            ;
        }
    }
}

} // verus!
