//! Sizes and small types that the clustering modules share.
use vstd::prelude::*;
use vstd::arithmetic::div_mod::{lemma_fundamental_div_mod, lemma_mod_bound, lemma_mod_multiples_basic};
use crate::arith::div_ceil;

verus! {

pub const D_THRESHOLD_FOR_DCT_ROTATION: usize = 512;

/// Width of a horizontal block.
pub const H_DIM_SIZE: usize = 64;

/// Least number of leading dimensions that partial distances cover.
pub const MIN_PARTIAL_D: u32 = 16;

/// Vectors with fewer dimensions are compared in full.
pub const DIMENSION_THRESHOLD_FOR_PRUNING: usize = 128;

/// With at most this many clusters vectors are compared in full.
pub const N_CLUSTERS_THRESHOLD_FOR_PRUNING: usize = 256;

/// Queries per batch.
pub const X_BATCH_SIZE: usize = 4096;

/// Centroids per batch.
pub const Y_BATCH_SIZE: usize = 1024;

pub const MINI_BATCH_SIZE: usize = 256;

/// Rows per block of the centroid layout.
pub const VECTOR_CHUNK_SIZE: usize = 1024;

/// Iterations without a better recall after which training stops.
pub const RECALL_CONVERGENCE_PATIENCE: usize = 2;

/// Key of the largest finite distance.
pub const MAX_KEY: u32 = 0xff7f_ffff;

/// Key of the distance zero.
pub const ZERO_KEY: u32 = 0x8000_0000;

/// The least multiple of `val` that is not below `n`.
pub fn align_value(n: usize, val: usize) -> (r: usize)
    requires
        val > 0,
        n + val - 1 <= usize::MAX,
    ensures
        r % val == 0,
        n <= r < n + val,
{
    let q: usize = div_ceil(n, val);
    proof {
        let m = n + val - 1;
        let v = val as int;
        lemma_fundamental_div_mod(m, v);
        lemma_mod_bound(m, v);
        lemma_mod_multiples_basic(m / v, v);
        assert((m / v) * v == v * (m / v)) by (nonlinear_arith);
    }
    q * val
}

#[derive(Debug, Clone, Copy, PartialEq, Eq, Structural)]
pub enum DistanceFunction {
    L2,
    Dp,
}

#[derive(Debug, Clone, Copy, PartialEq, Eq, Structural)]
pub enum Quantization {
    F32,
}

/// A centroid with the key of its distance. Keys are ordered as the distances
/// that they stand for.
#[derive(Debug, Clone, Copy, PartialEq, Eq, Structural)]
pub struct KnnCandidate {
    pub index: u32,
    pub distance: u32,
}

impl Default for KnnCandidate {
    fn default() -> (r: KnnCandidate)
        ensures
            r.index == 0,
            r.distance == MAX_KEY,
    {
        KnnCandidate { index: 0, distance: MAX_KEY }
    }
}

/// Where one block of rows lies in the buffers of a blocked matrix.
#[derive(Debug, Clone, Copy, PartialEq, Eq, Structural)]
pub struct ClusterView {
    pub num_embeddings: u32,
    pub data_offset: usize,
    pub indices_offset: usize,
    pub aux_offset: usize,
}

/// The key of a single-precision number: the bits of a non-negative number with
/// the sign bit set, the inverted bits of a negative one with one added, so that
/// both zeros have one key. Keys are ordered as the numbers are.
pub open spec fn key_of_bits(bits: u32) -> u32 {
    if bits < 0x8000_0000 {
        (bits + 0x8000_0000) as u32
    } else {
        (0x1_0000_0000 - bits) as u32
    }
}

pub fn ordered_key(bits: u32) -> (key: u32)
    ensures
        key == key_of_bits(bits),
{
    if bits < 0x8000_0000 {
        bits + 0x8000_0000
    } else {
        0xffff_ffff - bits + 1
    }
}

/// The bits of the number that a key stands for: those of the positive zero for
/// the key of both zeros. No number has the key zero, which is taken as one.
pub fn bits_of_key(key: u32) -> (bits: u32)
    ensures
        key > 0 ==> key_of_bits(bits) == key,
        key == 0 ==> key_of_bits(bits) == 1,
        bits != 0x8000_0000,
{
    if key >= 0x8000_0000 {
        key - 0x8000_0000
    } else if key > 0 {
        0xffff_ffff - key + 1
    } else {
        0xffff_ffff
    }
}

/// The bits of a number are told by its key, up to the sign of zero.
pub proof fn law_keys_tell_numbers_apart(a: u32, b: u32)
    requires
        key_of_bits(a) == key_of_bits(b),
        a != 0x8000_0000,
        b != 0x8000_0000,
    ensures
        a == b,
{
}

/// Keys are ordered as the numbers that the bit patterns stand for: a positive
/// number grows with its pattern, a negative one falls with it and is below
/// every positive one, and both zeros have one key.
pub proof fn law_keys_are_ordered_as_numbers(a: u32, b: u32)
    ensures
        a < b < 0x8000_0000 ==> key_of_bits(a) < key_of_bits(b),
        0x8000_0000 <= a < b ==> key_of_bits(a) > key_of_bits(b),
        a < 0x8000_0000 < b ==> key_of_bits(b) < key_of_bits(a),
        key_of_bits(0) == key_of_bits(0x8000_0000),
{
}

} // verus!
