//! Byte layout of one encoded vector: packed stage-1 indices, packed stage-2
//! signs, and the residual norm as a little-endian word (the bit pattern of a
//! single-precision number).
//!
//! Of `bit_width` bits per coordinate one is the sign; the others are the
//! stage-1 index. With a bit width of one there are no indices.
use vstd::prelude::*;
use crate::bits::{bytes_for, bytes_for_bits, holds_le32, le32_at, read_le32, write_le32};

verus! {

/// Bits of a stage-1 index.
pub open spec fn s1_bits(bit_width: u8) -> int {
    if bit_width == 0 {
        0
    } else {
        bit_width - 1
    }
}

pub open spec fn stage2_start(padded_dim: int, bit_width: u8) -> int {
    bytes_for(padded_dim * s1_bits(bit_width))
}

pub open spec fn norm_start(padded_dim: int, bit_width: u8) -> int {
    stage2_start(padded_dim, bit_width) + bytes_for(padded_dim)
}

pub open spec fn record_len(padded_dim: int, bit_width: u8) -> int {
    norm_start(padded_dim, bit_width) + 4
}

/// The offsets of a record are machine words.
pub open spec fn layout_fits(padded_dim: int, bit_width: u8) -> bool {
    padded_dim * s1_bits(bit_width) <= usize::MAX && record_len(padded_dim, bit_width) <= usize::MAX
}

/// Byte offset at which the stage-2 sign bits begin.
pub fn stage2_offset(padded_dim: usize, bit_width: u8) -> (r: usize)
    requires
        padded_dim * s1_bits(bit_width) <= usize::MAX,
    ensures
        r == stage2_start(padded_dim as int, bit_width),
{
    let bits: usize = if bit_width == 0 {
        0
    } else {
        bit_width as usize - 1
    };
    bytes_for_bits(padded_dim * bits)
}

/// Byte offset at which the residual norm begins.
pub fn norm_offset(padded_dim: usize, bit_width: u8) -> (r: usize)
    requires
        padded_dim * s1_bits(bit_width) <= usize::MAX,
        norm_start(padded_dim as int, bit_width) <= usize::MAX,
    ensures
        r == norm_start(padded_dim as int, bit_width),
{
    stage2_offset(padded_dim, bit_width) + bytes_for_bits(padded_dim)
}

/// Bytes of a record.
pub fn bytes_per_record(padded_dim: usize, bit_width: u8) -> (r: usize)
    requires
        layout_fits(padded_dim as int, bit_width),
    ensures
        r == record_len(padded_dim as int, bit_width),
{
    norm_offset(padded_dim, bit_width) + 4
}

/// Reads the residual norm of a record, as a bit pattern.
pub fn read_norm(record: &[u8], padded_dim: usize, bit_width: u8) -> (gamma: u32)
    requires
        padded_dim * s1_bits(bit_width) <= usize::MAX,
        record_len(padded_dim as int, bit_width) <= record@.len(),
    ensures
        gamma == le32_at(record@, norm_start(padded_dim as int, bit_width)),
        holds_le32(record@, norm_start(padded_dim as int, bit_width), gamma),
{
    proof {
        assert(record@.len() == record.len());
    }
    read_le32(record, norm_offset(padded_dim, bit_width))
}

/// Writes the residual norm into a record, as a bit pattern. Reading it gives
/// the same pattern back, and no other byte changes.
pub fn write_norm(record: &mut [u8], padded_dim: usize, bit_width: u8, gamma: u32)
    requires
        padded_dim * s1_bits(bit_width) <= usize::MAX,
        record_len(padded_dim as int, bit_width) <= old(record)@.len(),
    ensures
        final(record)@.len() == old(record)@.len(),
        le32_at(final(record)@, norm_start(padded_dim as int, bit_width)) == gamma,
        holds_le32(final(record)@, norm_start(padded_dim as int, bit_width), gamma),
        forall|p: int|
            0 <= p < old(record)@.len() && !(norm_start(padded_dim as int, bit_width) <= p
                < record_len(padded_dim as int, bit_width)) ==> #[trigger] final(record)@[p]
                == old(record)@[p],
{
    proof {
        assert(record@.len() == record.len());
    }
    write_le32(record, norm_offset(padded_dim, bit_width), gamma);
}

/// The bytes of a record that hold the stage-1 indices.
pub fn stage1_bytes(record: &[u8], padded_dim: usize, bit_width: u8) -> (r: &[u8])
    requires
        padded_dim * s1_bits(bit_width) <= usize::MAX,
        stage2_start(padded_dim as int, bit_width) <= record@.len(),
    ensures
        r@ == record@.subrange(0, stage2_start(padded_dim as int, bit_width)),
{
    &record[0..stage2_offset(padded_dim, bit_width)]
}

/// The bytes of a record that hold the stage-2 signs.
pub fn stage2_bytes(record: &[u8], padded_dim: usize, bit_width: u8) -> (r: &[u8])
    requires
        padded_dim * s1_bits(bit_width) <= usize::MAX,
        norm_start(padded_dim as int, bit_width) <= record@.len(),
    ensures
        r@ == record@.subrange(
            stage2_start(padded_dim as int, bit_width),
            norm_start(padded_dim as int, bit_width),
        ),
{
    proof {
        assert(record@.len() == record.len());
    }
    let start: usize = stage2_offset(padded_dim, bit_width);
    let end: usize = norm_offset(padded_dim, bit_width);
    &record[start..end]
}

/// The parts of a record follow one another: each starts at the first byte after
/// the bits of the one before, and the norm takes four bytes.
pub proof fn law_record_parts_follow(d: int, bit_width: u8)
    requires
        d >= 0,
        bit_width >= 1,
    ensures
        ({
            let signs = stage2_start(d, bit_width);
            let norm = norm_start(d, bit_width);
            &&& 8 * signs - 8 < d * (bit_width - 1) <= 8 * signs
            &&& 8 * norm - 8 < 8 * signs + d <= 8 * norm
            &&& record_len(d, bit_width) == norm + 4
        }),
{
    let bits = d * (bit_width - 1);
    assert(bits >= 0) by (nonlinear_arith)
        requires
            bits == d * (bit_width - 1),
            d >= 0,
            bit_width >= 1,
    ;
}

} // verus!
