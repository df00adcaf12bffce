//! Blocked cluster layout for 8-bit codes.
//!
//! The dimensions of a vector are cut into blocks: groups of four for the
//! vertical dimensions (the last group may be narrower), then groups of
//! sixty-four for the horizontal ones. A cluster buffer for `stride` vectors
//! stores the blocks one after another, and inside a block the vectors one
//! after another. So dimension `d` of the vector in slot `s`, in a block that
//! starts at dimension `b` and is `w` wide, sits at `b * stride + s * w + (d - b)`.
use vstd::prelude::*;
use vstd::arithmetic::div_mod::*;
use vstd::arithmetic::mul::*;
use crate::significand::{
    lemma_round_nearest_error, round_nearest, round_significand, SINGLE_LIMIT,
};

verus! {

pub const H_DIM_SIZE: u32 = 64;

pub const U8_INTERLEAVE_SIZE: u32 = 4;

pub const MAX_U8: u8 = 255;

/// How many leading dimensions are scanned vertically, and how many follow
/// horizontally.
#[derive(Clone, Copy, Debug, PartialEq, Eq, Structural)]
pub struct DimensionSplit {
    pub vertical_dimensions: u32,
    pub horizontal_dimensions: u32,
}

/// Three quarters of `n`, as single precision computes and truncates it.
pub open spec fn three_quarters(n: nat) -> nat {
    round_nearest(
        3 * round_nearest(n, SINGLE_LIMIT as nat),
        SINGLE_LIMIT as nat,
    ) / 4
}

/// Number of horizontal dimensions for vectors of `n` dimensions.
///
/// A quarter of the dimensions (three quarters above 128), rounded to the
/// nearest multiple of 64; none for vectors of at most 64 dimensions.
pub open spec fn horizontal_count(n: nat) -> nat {
    let share = if n <= 128 {
        n / 4
    } else {
        three_quarters(n)
    };
    if n <= 64 {
        0
    } else {
        (share + 32) / 64 * 64
    }
}

/// Number of vertical dimensions for vectors of `n` dimensions.
pub open spec fn vertical_count(n: nat) -> int {
    n - horizontal_count(n)
}

/// A split leaves at least one vertical dimension and whole horizontal blocks.
pub proof fn lemma_split_bounds(n: nat)
    requires
        0 < n <= u32::MAX,
    ensures
        0 < vertical_count(n) <= n,
        horizontal_count(n) % 64 == 0,
        n > 128 ==> three_quarters(n) + 33 <= n,
{
    if n > 128 {
        let limit = SINGLE_LIMIT as nat;
        lemma_round_nearest_error(n, limit);
        let a = round_nearest(n, limit);
        lemma_round_nearest_error(3 * a, limit);
        let b = round_nearest(3 * a, limit);
        if 3 * n < limit {
            assert(b == 3 * n);
        } else {
            assert(0x100_0000 * a <= 0x100_0000 * n + n);
            assert(0x100_0000 * b <= 0x100_0000 * (3 * a) + 3 * a);
        }
    }
}

/// Splits `num_dimensions` into the vertical and the horizontal part.
pub fn get_pdx_dimension_split(num_dimensions: u32) -> (split: DimensionSplit)
    requires
        num_dimensions > 0,
    ensures
        split.horizontal_dimensions == horizontal_count(num_dimensions as nat),
        split.vertical_dimensions == vertical_count(num_dimensions as nat),
        split.vertical_dimensions > 0,
        split.horizontal_dimensions % 64 == 0,
{
    proof {
        lemma_split_bounds(num_dimensions as nat);
        lemma_round_nearest_error(num_dimensions as nat, SINGLE_LIMIT as nat);
    }
    if num_dimensions <= H_DIM_SIZE {
        return DimensionSplit { vertical_dimensions: num_dimensions, horizontal_dimensions: 0 };
    }
    let share: u32 = if num_dimensions <= 128 {
        num_dimensions / 4
    } else {
        let exact: u128 = round_significand(num_dimensions as u128, SINGLE_LIMIT);
        (round_significand(3 * exact, SINGLE_LIMIT) / 4) as u32
    };
    let horizontal: u32 = (share + H_DIM_SIZE / 2) / H_DIM_SIZE * H_DIM_SIZE;
    DimensionSplit {
        vertical_dimensions: num_dimensions - horizontal,
        horizontal_dimensions: horizontal,
    }
}

/// Total bytes of a cluster buffer: one byte for each dimension of each of
/// `stride` slots, saturating at the largest size.
pub fn cluster_buffer_bytes(stride: usize, num_dimensions: u32) -> (r: usize)
    ensures
        stride * num_dimensions <= usize::MAX ==> r == stride * num_dimensions,
        stride * num_dimensions > usize::MAX ==> r == usize::MAX,
{
    match stride.checked_mul(num_dimensions as usize) {
        Some(bytes) => bytes,
        None => usize::MAX,
    }
}

/// First dimension of the block that holds dimension `d`, when the first
/// `v` dimensions are vertical.
pub open spec fn block_start(v: int, d: int) -> int {
    if d < v {
        d / 4 * 4
    } else {
        v + (d - v) / 64 * 64
    }
}

/// Width of the block that starts at dimension `b`.
pub open spec fn block_width(v: int, b: int) -> int {
    if b + 4 <= v {
        4
    } else if b < v {
        v - b
    } else {
        64
    }
}

/// Position of dimension `d` of slot `slot` in a cluster buffer of `stride`
/// slots whose vectors have `v` vertical dimensions.
pub open spec fn slot_offset(v: int, stride: int, slot: int, d: int) -> int {
    let b = block_start(v, d);
    b * stride + slot * block_width(v, b) + (d - b)
}

/// The buffer is long enough for every dimension of `slot`.
pub open spec fn slot_fits(len: int, stride: int, slot: int, n: nat) -> bool {
    forall|d: int| 0 <= d < n ==> #[trigger] slot_offset(vertical_count(n), stride, slot, d) < len
}

/// The code vector that a cluster buffer holds in `slot`.
pub open spec fn slot_codes(data: Seq<u8>, stride: int, slot: int, n: nat) -> Seq<u8> {
    Seq::new(n, |d: int| data[slot_offset(vertical_count(n), stride, slot, d)])
}

/// Facts about the block around dimension `d`.
pub proof fn lemma_block(v: int, n: int, d: int)
    requires
        0 < v <= n,
        (n - v) % 64 == 0,
        0 <= d < n,
    ensures
        0 <= block_start(v, d) <= d < block_start(v, d) + block_width(v, block_start(v, d)) <= n,
        block_start(v, block_start(v, d)) == block_start(v, d),
        forall|e: int|
            block_start(v, d) <= e < block_start(v, d) + block_width(v, block_start(v, d))
                ==> #[trigger] block_start(v, e) == block_start(v, d),
{
}

/// Positions inside a cluster buffer stay below its nominal size.
pub proof fn lemma_slot_offset_bound(v: int, n: int, stride: int, slot: int, d: int)
    requires
        0 < v <= n,
        (n - v) % 64 == 0,
        0 <= d < n,
        0 <= slot < stride,
    ensures
        0 <= slot_offset(v, stride, slot, d),
        block_start(v, d) * stride <= slot_offset(v, stride, slot, d),
        slot_offset(v, stride, slot, d) < (block_start(v, d) + block_width(v, block_start(v, d)))
            * stride,
        slot_offset(v, stride, slot, d) < n * stride,
{
    lemma_block(v, n, d);
    let b = block_start(v, d);
    let w = block_width(v, b);
    let r = d - b;
    assert(0 <= slot * w && slot * w + r < w * stride) by (nonlinear_arith)
        requires
            0 <= slot < stride,
            0 <= r < w,
    ;
    assert((b + w) * stride == b * stride + w * stride) by (nonlinear_arith);
    assert(b * stride >= 0) by (nonlinear_arith)
        requires
            b >= 0,
            stride > 0,
    ;
    assert((b + w) * stride <= n * stride) by (nonlinear_arith)
        requires
            b + w <= n,
            stride > 0,
    ;
}

/// No two (slot, dimension) pairs share a position.
pub proof fn lemma_slot_offset_injective(
    v: int,
    n: int,
    stride: int,
    slot1: int,
    d1: int,
    slot2: int,
    d2: int,
)
    requires
        0 < v <= n,
        (n - v) % 64 == 0,
        0 <= d1 < n,
        0 <= d2 < n,
        0 <= slot1 < stride,
        0 <= slot2 < stride,
        slot_offset(v, stride, slot1, d1) == slot_offset(v, stride, slot2, d2),
    ensures
        slot1 == slot2,
        d1 == d2,
{
    lemma_block(v, n, d1);
    lemma_block(v, n, d2);
    lemma_slot_offset_bound(v, n, stride, slot1, d1);
    lemma_slot_offset_bound(v, n, stride, slot2, d2);
    let b1 = block_start(v, d1);
    let b2 = block_start(v, d2);
    let w1 = block_width(v, b1);
    let w2 = block_width(v, b2);
    if b1 < b2 {
        assert(b1 + w1 <= b2);
        assert((b1 + w1) * stride <= b2 * stride) by (nonlinear_arith)
            requires
                b1 + w1 <= b2,
                stride > 0,
        ;
    } else if b2 < b1 {
        assert(b2 + w2 <= b1);
        assert((b2 + w2) * stride <= b1 * stride) by (nonlinear_arith)
            requires
                b2 + w2 <= b1,
                stride > 0,
        ;
    } else {
        let r1 = d1 - b1;
        let r2 = d2 - b1;
        assert(slot1 == slot2 && r1 == r2) by (nonlinear_arith)
            requires
                slot1 * w1 + r1 == slot2 * w1 + r2,
                0 <= r1 < w1,
                0 <= r2 < w1,
        ;
    }
}

/// A buffer of the nominal size has room for every slot.
pub proof fn lemma_full_buffer_fits(len: int, stride: int, slot: int, n: nat)
    requires
        0 < n <= u32::MAX,
        0 <= slot < stride,
        stride * n <= len,
    ensures
        slot_fits(len, stride, slot, n),
{
    lemma_split_bounds(n);
    assert(n * stride == stride * n) by (nonlinear_arith);
    assert forall|d: int| 0 <= d < n implies #[trigger] slot_offset(
        vertical_count(n),
        stride,
        slot,
        d,
    ) < len by {
        lemma_slot_offset_bound(vertical_count(n), n as int, stride, slot, d);
    }
}

/// Width of the block that starts at dimension `start`.
fn width_at(vertical: usize, start: usize) -> (w: usize)
    requires
        start <= u32::MAX,
    ensures
        w == block_width(vertical as int, start as int),
{
    if start < vertical {
        let left: usize = vertical - start;
        if left >= 4 {
            4
        } else {
            left
        }
    } else {
        64
    }
}

/// Writes one code vector into slot `idx_in_cluster` of a cluster buffer.
pub fn scatter_u8_embedding_into_cluster(
    data: &mut [u8],
    stride: usize,
    idx_in_cluster: usize,
    embedding: &[u8],
    num_dimensions: u32,
)
    requires
        num_dimensions > 0,
        embedding@.len() == num_dimensions,
        idx_in_cluster < stride,
        slot_fits(
            old(data)@.len() as int,
            stride as int,
            idx_in_cluster as int,
            num_dimensions as nat,
        ),
    ensures
        final(data)@.len() == old(data)@.len(),
        slot_codes(final(data)@, stride as int, idx_in_cluster as int, num_dimensions as nat)
            == embedding@,
        forall|p: int|
            0 <= p < old(data)@.len() && (forall|d: int|
                0 <= d < num_dimensions ==> p != #[trigger] slot_offset(
                    vertical_count(num_dimensions as nat),
                    stride as int,
                    idx_in_cluster as int,
                    d,
                )) ==> #[trigger] final(data)@[p] == old(data)@[p],
{
    let split = get_pdx_dimension_split(num_dimensions);
    let vertical: usize = split.vertical_dimensions as usize;
    let n: usize = num_dimensions as usize;
    let ghost v = vertical as int;
    let ghost slot = idx_in_cluster as int;
    let ghost before = data@;
    let mut start: usize = 0;
    while start < n
        invariant
            v == vertical,
            v == vertical_count(num_dimensions as nat),
            n == num_dimensions,
            0 < v <= n,
            (n - v) % 64 == 0,
            slot == idx_in_cluster,
            idx_in_cluster < stride,
            embedding@.len() == n,
            start <= n,
            start < n ==> block_start(v, start as int) == start,
            data@.len() == before.len(),
            slot_fits(before.len() as int, stride as int, slot, n as nat),
            forall|d: int|
                0 <= d < start ==> data@[#[trigger] slot_offset(v, stride as int, slot, d)]
                    == embedding@[d],
            forall|p: int|
                0 <= p < before.len() && (forall|d: int|
                    0 <= d < n ==> p != #[trigger] slot_offset(v, stride as int, slot, d))
                    ==> #[trigger] data@[p] == before[p],
        decreases n - start,
    {
        let width: usize = width_at(vertical, start);
        proof {
            lemma_block(v, n as int, start as int);
            lemma_slot_offset_bound(v, n as int, stride as int, slot, start as int);
            assert(slot_offset(v, stride as int, slot, start as int) < before.len());
            assert(data@.len() == data.len());
            assert(idx_in_cluster * width >= 0) by (nonlinear_arith);
            assert(start * stride >= 0) by (nonlinear_arith);
        }
        let base: usize = start * stride + idx_in_cluster * width;
        let mut r: usize = 0;
        while r < width
            invariant
                v == vertical_count(num_dimensions as nat),
                n == num_dimensions,
                0 < v <= n,
                (n - v) % 64 == 0,
                slot == idx_in_cluster,
                idx_in_cluster < stride,
                embedding@.len() == n,
                start < n,
                block_start(v, start as int) == start,
                width == block_width(v, start as int),
                start + width <= n,
                base == start * stride + idx_in_cluster * width,
                0 <= r <= width,
                data@.len() == before.len(),
                slot_fits(before.len() as int, stride as int, slot, n as nat),
                forall|d: int|
                    0 <= d < start + r ==> data@[#[trigger] slot_offset(
                        v,
                        stride as int,
                        slot,
                        d,
                    )] == embedding@[d],
                forall|p: int|
                    0 <= p < before.len() && (forall|d: int|
                        0 <= d < n ==> p != #[trigger] slot_offset(v, stride as int, slot, d))
                        ==> #[trigger] data@[p] == before[p],
            decreases width - r,
        {
            let ghost d0 = start as int + r as int;
            proof {
                lemma_block(v, n as int, start as int);
                lemma_slot_offset_bound(v, n as int, stride as int, slot, d0);
                assert(slot_offset(v, stride as int, slot, d0) == base + r);
                assert(data@.len() == data.len());
            }
            let ghost prev = data@;
            data[base + r] = embedding[start + r];
            proof {
                assert forall|d: int| 0 <= d < d0 + 1 implies data@[#[trigger] slot_offset(
                    v,
                    stride as int,
                    slot,
                    d,
                )] == embedding@[d] by {
                    if d != d0 {
                        if slot_offset(v, stride as int, slot, d) == base + r {
                            lemma_slot_offset_injective(
                                v,
                                n as int,
                                stride as int,
                                slot,
                                d,
                                slot,
                                d0,
                            );
                        }
                        lemma_slot_offset_bound(v, n as int, stride as int, slot, d);
                        assert(prev[slot_offset(v, stride as int, slot, d)] == embedding@[d]);
                    }
                }
            }
            r += 1;
        }
        proof {
            lemma_block(v, n as int, start as int);
        }
        start += width;
    }
    proof {
        assert(slot_codes(data@, stride as int, slot, num_dimensions as nat) =~= embedding@);
    }
}

/// Reads the code vector in slot `idx_in_cluster` of a cluster buffer.
pub fn gather_u8_embedding_from_cluster(
    data: &[u8],
    stride: usize,
    idx_in_cluster: usize,
    out: &mut [u8],
    num_dimensions: u32,
)
    requires
        num_dimensions > 0,
        old(out)@.len() == num_dimensions,
        idx_in_cluster < stride,
        slot_fits(data@.len() as int, stride as int, idx_in_cluster as int, num_dimensions as nat),
    ensures
        final(out)@ == slot_codes(
            data@,
            stride as int,
            idx_in_cluster as int,
            num_dimensions as nat,
        ),
{
    let split = get_pdx_dimension_split(num_dimensions);
    let vertical: usize = split.vertical_dimensions as usize;
    let n: usize = num_dimensions as usize;
    let ghost v = vertical as int;
    let ghost slot = idx_in_cluster as int;
    let mut start: usize = 0;
    while start < n
        invariant
            v == vertical,
            v == vertical_count(num_dimensions as nat),
            n == num_dimensions,
            0 < v <= n,
            (n - v) % 64 == 0,
            slot == idx_in_cluster,
            idx_in_cluster < stride,
            out@.len() == n,
            start <= n,
            start < n ==> block_start(v, start as int) == start,
            slot_fits(data@.len() as int, stride as int, slot, n as nat),
            forall|d: int|
                0 <= d < start ==> #[trigger] out@[d] == data@[slot_offset(
                    v,
                    stride as int,
                    slot,
                    d,
                )],
        decreases n - start,
    {
        let width: usize = width_at(vertical, start);
        proof {
            lemma_block(v, n as int, start as int);
            lemma_slot_offset_bound(v, n as int, stride as int, slot, start as int);
            assert(slot_offset(v, stride as int, slot, start as int) < data@.len());
            assert(data@.len() == data.len());
            assert(idx_in_cluster * width >= 0) by (nonlinear_arith);
            assert(start * stride >= 0) by (nonlinear_arith);
        }
        let base: usize = start * stride + idx_in_cluster * width;
        let mut r: usize = 0;
        while r < width
            invariant
                0 < v <= n,
                n == num_dimensions,
                v == vertical_count(num_dimensions as nat),
                (n - v) % 64 == 0,
                slot == idx_in_cluster,
                idx_in_cluster < stride,
                out@.len() == n,
                start < n,
                block_start(v, start as int) == start,
                width == block_width(v, start as int),
                start + width <= n,
                base == start * stride + idx_in_cluster * width,
                0 <= r <= width,
                slot_fits(data@.len() as int, stride as int, slot, n as nat),
                forall|d: int|
                    0 <= d < start + r ==> #[trigger] out@[d] == data@[slot_offset(
                        v,
                        stride as int,
                        slot,
                        d,
                    )],
            decreases width - r,
        {
            proof {
                lemma_block(v, n as int, start as int);
                lemma_slot_offset_bound(v, n as int, stride as int, slot, start + r);
                assert(slot_offset(v, stride as int, slot, start + r) == base + r);
                assert(data@.len() == data.len());
            }
            out[start + r] = data[base + r];
            r += 1;
        }
        proof {
            lemma_block(v, n as int, start as int);
        }
        start += width;
    }
    proof {
        assert(out@ =~= slot_codes(data@, stride as int, slot, num_dimensions as nat));
    }
}

/// Writing one slot leaves every other slot as it was: for two buffers that
/// agree outside the positions of `slot`, every other slot holds the same code
/// vector in both.
pub proof fn law_slots_do_not_interfere(
    before: Seq<u8>,
    after: Seq<u8>,
    stride: int,
    slot: int,
    other: int,
    n: nat,
)
    requires
        0 < n <= u32::MAX,
        before.len() == after.len(),
        0 <= slot < stride,
        0 <= other < stride,
        slot != other,
        slot_fits(before.len() as int, stride, other, n),
        forall|p: int|
            0 <= p < before.len() && (forall|d: int|
                0 <= d < n ==> p != #[trigger] slot_offset(vertical_count(n), stride, slot, d))
                ==> #[trigger] after[p] == before[p],
    ensures
        slot_codes(after, stride, other, n) == slot_codes(before, stride, other, n),
{
    lemma_split_bounds(n);
    let v = vertical_count(n);
    assert forall|d: int| 0 <= d < n implies after[#[trigger] slot_offset(v, stride, other, d)]
        == before[slot_offset(v, stride, other, d)] by {
        let p = slot_offset(v, stride, other, d);
        lemma_slot_offset_bound(v, n as int, stride, other, d);
        assert forall|e: int| 0 <= e < n implies p != #[trigger] slot_offset(v, stride, slot, e) by {
            if p == slot_offset(v, stride, slot, e) {
                lemma_slot_offset_injective(v, n as int, stride, other, d, slot, e);
            }
        }
    }
    assert(slot_codes(after, stride, other, n) =~= slot_codes(before, stride, other, n));
}

/// The horizontal dimensions are whole blocks of 64, as near to their share as
/// whole blocks can be: none of up to 64 dimensions, a quarter of up to 128, and
/// three quarters of more.
pub proof fn law_horizontal_dimensions_are_near_their_share(n: nat)
    ensures
        horizontal_count(n) % 64 == 0,
        n <= 64 ==> horizontal_count(n) == 0,
        64 < n <= 128 ==> -32 < horizontal_count(n) - n / 4 <= 32,
        n > 128 ==> -32 < horizontal_count(n) - three_quarters(n) <= 32,
{
}

/// How the slots of a cluster are laid out: vertical dimensions in groups of four
/// (the last may be narrower), horizontal ones in blocks of 64. Within a group
/// the dimensions of one slot are next to one another, a further slot lies a
/// whole group on, and a group starts where its first dimension would if every
/// dimension took one byte of every slot.
pub proof fn law_slot_layout_runs(v: int, stride: int, slot: int, d: int)
    requires
        0 <= d,
        0 < v,
    ensures
        d < v ==> {
            let b = d - d % 4;
            let width: int = if b + 4 <= v {
                4
            } else {
                v - b
            };
            slot_offset(v, stride, slot, d) == b * stride + slot * width + d % 4
        },
        d >= v ==> slot_offset(v, stride, slot, d) == (d - (d - v) % 64) * stride + slot * 64 + (d
            - v) % 64,
{
    if d < v {
        assert(block_start(v, d) == d - d % 4);
    } else {
        assert(block_start(v, d) == d - (d - v) % 64);
        assert(block_width(v, block_start(v, d)) == 64) by {
            assert(block_start(v, d) >= v);
        }
    }
}

} // verus!
