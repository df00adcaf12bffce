//! Lists of rows that are still in the running, and sign flips.
use vstd::prelude::*;
use crate::quantization::pdx_u8::pruning::{
    evaluate_pruning_predicate_positions, kept, lanes_where,
};

verus! {

/// Lists the rows whose distance key is below `threshold`; returns how many
/// there are.
pub fn init_positions_array(
    pruning_positions: &mut [u32],
    pruning_distances: &[u32],
    threshold: u32,
    n_vectors: usize,
) -> (n_not_pruned: usize)
    requires
        n_vectors <= pruning_distances@.len(),
        n_vectors <= old(pruning_positions)@.len(),
        n_vectors <= u32::MAX,
    ensures
        n_not_pruned <= n_vectors,
        final(pruning_positions)@.len() == old(pruning_positions)@.len(),
        final(pruning_positions)@.take(n_not_pruned as int) == lanes_where(
            n_vectors as nat,
            |l: int| pruning_distances@[l] < threshold,
        ),
{
    crate::quantization::pdx_u8::pruning::init_positions_array(
        n_vectors,
        pruning_positions,
        threshold,
        pruning_distances,
    )
}

/// Keeps of the first `cur_count` listed rows those whose distance key is below
/// `threshold`.
pub fn evaluate_predicate(
    pruning_positions: &mut [u32],
    pruning_distances: &[u32],
    threshold: u32,
    cur_count: usize,
) -> (n_not_pruned: usize)
    requires
        cur_count <= old(pruning_positions)@.len(),
        forall|i: int|
            0 <= i < cur_count ==> #[trigger] old(pruning_positions)@[i] < pruning_distances@.len(),
    ensures
        n_not_pruned <= cur_count,
        final(pruning_positions)@.len() == old(pruning_positions)@.len(),
        final(pruning_positions)@.take(n_not_pruned as int) == kept(
            old(pruning_positions)@.take(cur_count as int),
            pruning_distances@,
            threshold,
        ),
{
    evaluate_pruning_predicate_positions(
        cur_count,
        pruning_positions,
        threshold,
        pruning_distances,
    )
}

/// Flips the bits of each word that its mask has set: with masks of the sign
/// bit, the signs of single-precision numbers given by their bits.
pub fn flip_sign(data: &[u32], out: &mut [u32], masks: &[u32])
    requires
        data@.len() == old(out)@.len(),
        data@.len() == masks@.len(),
    ensures
        final(out)@.len() == data@.len(),
        forall|j: int| 0 <= j < data@.len() ==> #[trigger] final(out)@[j] == data@[j] ^ masks@[j],
{
    for j in 0..data.len()
        invariant
            data@.len() == out@.len(),
            data@.len() == masks@.len(),
            forall|i: int| 0 <= i < j ==> #[trigger] out@[i] == data@[i] ^ masks@[i],
    {
        out[j] = data[j] ^ masks[j];
    }
}

/// Flipping twice gives back what was there.
pub proof fn law_flipping_twice_undoes(x: u32, mask: u32)
    ensures
        (x ^ mask) ^ mask == x,
{
    assert((x ^ mask) ^ mask == x) by (bit_vector);
}

} // verus!
