//! Scoring sixteen encoded vectors at once against 8-bit query tables.
use vstd::prelude::*;
use crate::bits::{bit_at, bit_of, le32_at, lemma_same_bits};
use crate::functions::{is_function2, value_of2};
use crate::quantization::turboquant::bitpack::spelled;
use crate::quantization::turboquant::distance::{index_at, lemma_index_at, TurboQuantQuery};
use crate::quantization::turboquant::record::{norm_start, record_len, s1_bits, stage2_start};
use crate::quantization::turboquant::transposed::{
    batch_gamma, batch_len, batch_stage1_index, batch_stage2_sign, is_batch_of,
    lemma_batch_sign_bit, lemma_index_pieces, lemma_nibble_spelled, nibble_at, slab_bit,
};

verus! {

/// Query tables for whole batches: one row of sixteen entries per coordinate.
pub struct BatchedQueryLut {
    lut_i8: Vec<i8>,
    padded_dim: usize,
}

/// What the first pass over a batch gives for each of its slots: the sum of
/// the table entries, and the residual norm as a bit pattern.
#[derive(Clone, Copy)]
pub struct Stage1Partial {
    pub stage1: [i32; 16],
    pub gammas: [u32; 16],
}

/// The sum of the table entries that `index_at` names for the first `n`
/// coordinates.
pub open spec fn table_sum(lut: Seq<i8>, index_at: spec_fn(int) -> u8, n: nat) -> int
    decreases n,
{
    if n == 0 {
        0
    } else {
        table_sum(lut, index_at, (n - 1) as nat) + lut[16 * (n - 1) + index_at(n - 1)]
    }
}

pub proof fn lemma_table_sum_congruent(
    lut: Seq<i8>,
    f: spec_fn(int) -> u8,
    g: spec_fn(int) -> u8,
    n: nat,
)
    requires
        forall|c: int| 0 <= c < n ==> #[trigger] f(c) == g(c),
    ensures
        table_sum(lut, f, n) == table_sum(lut, g, n),
    decreases n,
{
    if n > 0 {
        lemma_table_sum_congruent(lut, f, g, (n - 1) as nat);
        assert(f(n - 1) == g(n - 1));
    }
}

impl BatchedQueryLut {
    pub closed spec fn lut(self) -> Seq<i8> {
        self.lut_i8@
    }

    pub closed spec fn dim(self) -> nat {
        self.padded_dim as nat
    }

    pub open spec fn wf(self) -> bool {
        &&& self.lut().len() == 16 * self.dim()
        &&& batch_len(self.dim() as int) <= usize::MAX
        &&& 16 * self.dim() <= usize::MAX
        &&& 128 * self.dim() <= i32::MAX
    }

    /// Lays out rows of `levels` entries as rows of sixteen. A row of eight is
    /// repeated, so that every four-bit index finds an entry.
    pub fn new(entries: &[i8], levels: usize, padded_dim: usize) -> (r: BatchedQueryLut)
        requires
            levels == 8 || levels == 16,
            entries@.len() == padded_dim * levels,
            batch_len(padded_dim as int) <= usize::MAX,
            16 * padded_dim <= usize::MAX,
            128 * padded_dim <= i32::MAX,
        ensures
            r.wf(),
            r.dim() == padded_dim,
            forall|c: int, v: int|
                0 <= c < padded_dim && 0 <= v < 16 ==> #[trigger] r.lut()[16 * c + v]
                    == entries@[c * levels + v % (levels as int)],
    {
        let mut lut: Vec<i8> = Vec::new();
        proof {
            assert(padded_dim * levels == if levels == 8 {
                8 * padded_dim
            } else {
                16 * padded_dim
            }) by (nonlinear_arith)
                requires
                    levels == 8 || levels == 16,
            ;
        }
        for c in 0..padded_dim
            invariant
                levels == 8 || levels == 16,
                entries@.len() == padded_dim * levels,
                16 * padded_dim <= usize::MAX,
                padded_dim * levels == if levels == 8 {
                    8 * padded_dim
                } else {
                    16 * padded_dim
                },
                lut@.len() == 16 * c,
                forall|m: int, v: int|
                    0 <= m < c && 0 <= v < 16 ==> #[trigger] lut@[16 * m + v] == entries@[m * levels
                        + v % (levels as int)],
        {
            proof {
                assert(c * levels == if levels == 8 {
                    8 * c
                } else {
                    16 * c
                }) by (nonlinear_arith)
                    requires
                        levels == 8 || levels == 16,
                ;
            }
            for v in 0..16usize
                invariant
                    levels == 8 || levels == 16,
                    c < padded_dim,
                    entries@.len() == padded_dim * levels,
                    16 * padded_dim <= usize::MAX,
                    padded_dim * levels == if levels == 8 {
                        8 * padded_dim
                    } else {
                        16 * padded_dim
                    },
                    c * levels == if levels == 8 {
                        8 * c
                    } else {
                        16 * c
                    },
                    lut@.len() == 16 * c + v,
                    forall|m: int, u: int|
                        0 <= m < c && 0 <= u < 16 ==> #[trigger] lut@[16 * m + u] == entries@[m
                            * levels + u % (levels as int)],
                    forall|u: int|
                        0 <= u < v ==> #[trigger] lut@[16 * c + u] == entries@[c * levels + u % (
                        levels as int)],
            {
                lut.push(entries[c * levels + v % levels]);
            }
            proof {
                assert forall|m: int, v: int| 0 <= m < c + 1 && 0 <= v < 16 implies
                    #[trigger] lut@[16 * m + v] == entries@[m * levels + v % (levels as int)] by {
                    if m == c {
                        assert(lut@[16 * c + v] == entries@[c * levels + v % (levels as int)]);
                    }
                }
            }
        }
        BatchedQueryLut { lut_i8: lut, padded_dim }
    }
}

/// `r` holds the sums of the table entries of every slot of a batch, and its
/// norms.
pub open spec fn is_stage1_of(r: Stage1Partial, lut: BatchedQueryLut, batch: Seq<u8>) -> bool {
    &&& forall|slot: int|
        0 <= slot < 16 ==> #[trigger] r.stage1@[slot] == table_sum(
            lut.lut(),
            |c: int| nibble_at(batch, c, slot),
            lut.dim(),
        )
    &&& forall|slot: int|
        0 <= slot < 16 ==> #[trigger] r.gammas@[slot] == le32_at(
            batch,
            10 * lut.dim() + 4 * slot,
        )
}

/// Adds up the table entries of every slot of a batch, and reads its norms.
pub fn score_batch_stage1(lut: &BatchedQueryLut, batch: &[u8]) -> (r: Stage1Partial)
    requires
        lut.wf(),
        batch_len(lut.dim() as int) <= batch@.len(),
    ensures
        is_stage1_of(r, *lut, batch@),
{
    let d: usize = lut.padded_dim;
    let mut acc: [i32; 16] = [0i32; 16];
    proof {
        assert(batch@.len() == batch.len());
    }
    let s1_t = &batch[0..8 * d];
    for c in 0..d
        invariant
            lut.wf(),
            d == lut.padded_dim,
            d == lut.dim(),
            s1_t@ == batch@.subrange(0, 8 * d),
            8 * d <= batch@.len(),
            forall|slot: int|
                0 <= slot < 16 ==> #[trigger] acc@[slot] == table_sum(
                    lut.lut(),
                    |k: int| nibble_at(batch@, k, slot),
                    c as nat,
                ),
            forall|slot: int| 0 <= slot < 16 ==> -128 * c <= #[trigger] acc@[slot] <= 128 * c,
    {
        let ghost before = acc@;
        for slot in 0..16usize
            invariant
                lut.wf(),
                d == lut.padded_dim,
                d == lut.dim(),
                c < d,
                s1_t@ == batch@.subrange(0, 8 * d),
                8 * d <= batch@.len(),
                before.len() == 16,
                forall|s: int|
                    0 <= s < 16 ==> #[trigger] before[s] == table_sum(
                        lut.lut(),
                        |k: int| nibble_at(batch@, k, s),
                        c as nat,
                    ),
                forall|s: int|
                    0 <= s < 16 ==> -128 * c <= #[trigger] before[s] <= 128 * c,
                forall|s: int| slot <= s < 16 ==> #[trigger] acc@[s] == before[s],
                forall|s: int|
                    0 <= s < slot ==> #[trigger] acc@[s] == before[s] + lut.lut()[16 * c
                        + nibble_at(batch@, c as int, s)],
        {
            let idx: usize = batch_stage1_index(s1_t, c, slot) as usize;
            proof {
                assert(idx == nibble_at(batch@, c as int, slot as int));
                assert(before[slot as int] == acc@[slot as int]);
            }
            acc[slot] = acc[slot] + lut.lut_i8[c * 16 + idx] as i32;
        }
        proof {
            assert forall|slot: int| 0 <= slot < 16 implies #[trigger] acc@[slot] == table_sum(
                lut.lut(),
                |k: int| nibble_at(batch@, k, slot),
                (c + 1) as nat,
            ) by {
                let f = |k: int| nibble_at(batch@, k, slot);
                assert(before[slot] == table_sum(lut.lut(), f, c as nat));
                assert(f(c as int) == nibble_at(batch@, c as int, slot));
            }
        }
    }
    let gammas_at: usize = 8 * d + 2 * d;
    let slab = &batch[gammas_at..batch.len()];
    let mut gammas: [u32; 16] = [0u32; 16];
    for slot in 0..16usize
        invariant
            slab@ == batch@.subrange(10 * d, batch@.len() as int),
            10 * d + 64 <= batch@.len(),
            d == lut.dim(),
            forall|s: int|
                0 <= s < slot ==> #[trigger] gammas@[s] == le32_at(
                    batch@,
                    10 * lut.dim() + 4 * s,
                ),
    {
        gammas[slot] = batch_gamma(slab, slot);
        proof {
            assert(le32_at(slab@, 4 * slot) == le32_at(batch@, 10 * d + 4 * slot));
        }
    }
    Stage1Partial { stage1: acc, gammas }
}

/// The index that a batch holds for a record is the index of the record.
pub proof fn lemma_batch_nibble(
    batch: Seq<u8>,
    records: Seq<Seq<u8>>,
    slot: int,
    d: int,
    bit_width: u8,
    c: int,
    x: u8,
)
    requires
        bit_width == 4 || bit_width == 5,
        0 <= slot < records.len() <= 16,
        is_batch_of(batch, records, d, bit_width),
        0 <= c < d,
        spelled(records[slot], c * s1_bits(bit_width), s1_bits(bit_width), x),
    ensures
        nibble_at(batch, c, slot) == x,
{
    lemma_nibble_spelled(batch, c, slot);
    let w = s1_bits(bit_width);
    let y = nibble_at(batch, c, slot);
    assert forall|j: int| 0 <= j < 8 implies #[trigger] bit_of(y, j) == bit_of(x, j) by {
        if j >= 4 {
            let b = 64 * c + 4 * slot + j - 4;
            lemma_index_pieces(c, slot, j - 4);
            assert(bit_at(batch, b) == slab_bit(
                records,
                d,
                w,
                stage2_start(d, bit_width),
                records.len() as int,
                b,
            ));
            assert(bit_of(y, j) == bit_at(batch, b));
            if j >= 8 - w {
                assert(bit_of(x, j) == bit_at(records[slot], c * w + j - (8 - w)));
            }
        }
    }
    lemma_same_bits(y, x);
}

/// Batched scoring agrees with scoring one record at a time: the sum of a slot
/// is the sum of the table entries that the indices of its record name.
pub proof fn law_batched_sum_matches_record(
    lut: Seq<i8>,
    batch: Seq<u8>,
    records: Seq<Seq<u8>>,
    slot: int,
    d: nat,
    bit_width: u8,
    indices: Seq<u8>,
)
    requires
        bit_width == 4 || bit_width == 5,
        0 <= slot < records.len() <= 16,
        is_batch_of(batch, records, d as int, bit_width),
        indices.len() == d,
        forall|c: int|
            0 <= c < d ==> spelled(
                records[slot],
                c * s1_bits(bit_width),
                s1_bits(bit_width),
                #[trigger] indices[c],
            ),
    ensures
        table_sum(lut, |c: int| nibble_at(batch, c, slot), d) == table_sum(
            lut,
            |c: int| indices[c],
            d,
        ),
{
    let f = |c: int| nibble_at(batch, c, slot);
    let g = |c: int| indices[c];
    assert forall|c: int| 0 <= c < d implies #[trigger] f(c) == g(c) by {
        lemma_batch_nibble(batch, records, slot, d as int, bit_width, c, indices[c]);
    }
    lemma_table_sum_congruent(lut, f, g, d);
}

/// The sum of the first `n` entries of `q`, each with its sign: one whose sign
/// bit is set is added, another is taken away.
pub open spec fn signed_sum<T>(
    q: Seq<T>,
    sign_at: spec_fn(int) -> bool,
    zero: T,
    plus: spec_fn(T, T) -> T,
    minus: spec_fn(T, T) -> T,
    n: nat,
) -> T
    decreases n,
{
    if n == 0 {
        zero
    } else {
        let sum = signed_sum(q, sign_at, zero, plus, minus, (n - 1) as nat);
        if sign_at(n - 1) {
            plus(sum, q[n - 1])
        } else {
            minus(sum, q[n - 1])
        }
    }
}

proof fn lemma_signed_sum_congruent<T>(
    q: Seq<T>,
    f: spec_fn(int) -> bool,
    g: spec_fn(int) -> bool,
    zero: T,
    plus: spec_fn(T, T) -> T,
    minus: spec_fn(T, T) -> T,
    n: nat,
)
    requires
        forall|c: int| 0 <= c < n ==> #[trigger] f(c) == g(c),
    ensures
        signed_sum(q, f, zero, plus, minus, n) == signed_sum(q, g, zero, plus, minus, n),
    decreases n,
{
    if n > 0 {
        lemma_signed_sum_congruent(q, f, g, zero, plus, minus, (n - 1) as nat);
        assert(f(n - 1) == g(n - 1));
    }
}

/// The sign bit of `slot` at coordinate `c` of a batch of `d` coordinates.
pub open spec fn batch_sign(batch: Seq<u8>, d: int, c: int, slot: int) -> bool {
    bit_at(batch, 64 * d + 16 * c + slot)
}

/// The signed sum of one slot of a batch.
fn slot_signed_sum<T: Copy, A: Fn(T, T) -> T, B: Fn(T, T) -> T>(
    batch: &[u8],
    d: usize,
    slot: usize,
    qjl_query: &[T],
    zero: T,
    plus: &A,
    minus: &B,
) -> (r: T)
    requires
        slot < 16,
        10 * d <= batch@.len(),
        qjl_query@.len() == d,
        is_function2(*plus),
        is_function2(*minus),
    ensures
        r == signed_sum(
            qjl_query@,
            |c: int| batch_sign(batch@, d as int, c, slot as int),
            zero,
            |x: T, y: T| value_of2(*plus, x, y),
            |x: T, y: T| value_of2(*minus, x, y),
            d as nat,
        ),
{
    proof {
        assert(batch@.len() == batch.len());
    }
    let s2_t = &batch[8 * d..10 * d];
    let ghost sign = |c: int| batch_sign(batch@, d as int, c, slot as int);
    let ghost p = |x: T, y: T| value_of2(*plus, x, y);
    let ghost m = |x: T, y: T| value_of2(*minus, x, y);
    let mut sum: T = zero;
    for c in 0..d
        invariant
            slot < 16,
            10 * d <= batch@.len(),
            s2_t@ == batch@.subrange(8 * d, 10 * d),
            qjl_query@.len() == d,
            is_function2(*plus),
            is_function2(*minus),
            sign == (|c: int| batch_sign(batch@, d as int, c, slot as int)),
            p == (|x: T, y: T| value_of2(*plus, x, y)),
            m == (|x: T, y: T| value_of2(*minus, x, y)),
            sum == signed_sum(qjl_query@, sign, zero, p, m, c as nat),
    {
        let ghost before = sum;
        let q: T = qjl_query[c];
        proof {
            let at = 16 * c + slot;
            assert(s2_t@[at / 8] == batch@[8 * d + at / 8]);
            assert(bit_at(s2_t@, at) == sign(c as int));
        }
        if batch_stage2_sign(s2_t, c, slot) == 1 {
            sum = plus(sum, q);
            assert(sum == p(before, q));
        } else {
            sum = minus(sum, q);
            assert(sum == m(before, q));
        }
    }
    sum
}

/// The sum of a projected query by the signs of one slot of a batch.
pub open spec fn slot_sum<T, A: Fn(T, T) -> T, B: Fn(T, T) -> T>(
    batch: Seq<u8>,
    qjl_query: Seq<T>,
    zero: T,
    plus: A,
    minus: B,
    slot: int,
) -> T {
    signed_sum(
        qjl_query,
        |c: int| batch_sign(batch, qjl_query.len() as int, c, slot),
        zero,
        |x: T, y: T| value_of2(plus, x, y),
        |x: T, y: T| value_of2(minus, x, y),
        qjl_query.len(),
    )
}

/// What `combine` gives for what the first pass found of a slot, and the sum of
/// the projected query by its signs.
pub open spec fn finished_score<
    T,
    A: Fn(T, T) -> T,
    B: Fn(T, T) -> T,
    C: Fn((i32, u32), T) -> T,
>(
    partial: Stage1Partial,
    batch: Seq<u8>,
    qjl_query: Seq<T>,
    zero: T,
    plus: A,
    minus: B,
    combine: C,
    slot: int,
) -> T {
    value_of2(
        combine,
        (partial.stage1@[slot], partial.gammas@[slot]),
        slot_sum(batch, qjl_query, zero, plus, minus, slot),
    )
}

/// Finishes the scores of a batch: `combine` gives the score of a slot from
/// what the first pass found of it and the signed sum of the projected query.
pub fn score_batch_finish<
    T: Copy,
    A: Fn(T, T) -> T,
    B: Fn(T, T) -> T,
    C: Fn((i32, u32), T) -> T,
>(
    batch: &[u8],
    partial: &Stage1Partial,
    qjl_query: &[T],
    zero: T,
    plus: &A,
    minus: &B,
    combine: &C,
    out: &mut [T; 16],
)
    requires
        10 * qjl_query@.len() <= batch@.len(),
        is_function2(*plus),
        is_function2(*minus),
        is_function2(*combine),
    ensures
        forall|slot: int|
            0 <= slot < 16 ==> #[trigger] final(out)@[slot] == finished_score(
                *partial,
                batch@,
                qjl_query@,
                zero,
                *plus,
                *minus,
                *combine,
                slot,
            ),
{
    let d: usize = qjl_query.len();
    for slot in 0..16usize
        invariant
            d == qjl_query@.len(),
            10 * d <= batch@.len(),
            is_function2(*plus),
            is_function2(*minus),
            is_function2(*combine),
            forall|s: int|
                0 <= s < slot ==> #[trigger] out@[s] == finished_score(
                    *partial,
                    batch@,
                    qjl_query@,
                    zero,
                    *plus,
                    *minus,
                    *combine,
                    s,
                ),
    {
        let sum: T = slot_signed_sum(batch, d, slot, qjl_query, zero, plus, minus);
        let r: T = combine((partial.stage1[slot], partial.gammas[slot]), sum);
        out[slot] = r;
    }
}

/// The score of one slot of a batch: what `combine` gives for the sum of the
/// table entries, the norm, and the sum of the projected query by the signs.
pub open spec fn slot_score<
    T: Copy,
    A: Fn(T, T) -> T,
    B: Fn(T, T) -> T,
    C: Fn((i32, u32), T) -> T,
>(
    lut: BatchedQueryLut,
    batch: Seq<u8>,
    qjl_query: Seq<T>,
    zero: T,
    plus: A,
    minus: B,
    combine: C,
    slot: int,
) -> T {
    value_of2(
        combine,
        (
            table_sum(lut.lut(), |c: int| nibble_at(batch, c, slot), lut.dim()) as i32,
            le32_at(batch, 10 * lut.dim() + 4 * slot),
        ),
        slot_sum(batch, qjl_query, zero, plus, minus, slot),
    )
}

/// Scores every slot of a batch.
pub fn score_batch<T: Copy, A: Fn(T, T) -> T, B: Fn(T, T) -> T, C: Fn((i32, u32), T) -> T>(
    lut: &BatchedQueryLut,
    batch: &[u8],
    qjl_query: &[T],
    zero: T,
    plus: &A,
    minus: &B,
    combine: &C,
    out: &mut [T; 16],
)
    requires
        lut.wf(),
        batch_len(lut.dim() as int) <= batch@.len(),
        qjl_query@.len() == lut.dim(),
        is_function2(*plus),
        is_function2(*minus),
        is_function2(*combine),
    ensures
        forall|slot: int|
            0 <= slot < 16 ==> #[trigger] final(out)@[slot] == slot_score(
                *lut,
                batch@,
                qjl_query@,
                zero,
                *plus,
                *minus,
                *combine,
                slot,
            ),
{
    let partial = score_batch_stage1(lut, batch);
    score_batch_finish(batch, &partial, qjl_query, zero, plus, minus, combine, out);
    proof {
        assert forall|slot: int| 0 <= slot < 16 implies partial.stage1@[slot] == table_sum(
            lut.lut(),
            |c: int| nibble_at(batch@, c, slot),
            lut.dim(),
        ) as i32 && partial.gammas@[slot] == le32_at(
            batch@,
            10 * lut.dim() + 4 * slot,
        ) && #[trigger] out@[slot] == out@[slot] by {
            assert(partial.stage1@[slot] == partial.stage1@[slot]);
            assert(partial.gammas@[slot] == partial.gammas@[slot]);
        }
    }
}

/// The sum of the entries that `index_at` names in the first `n` rows of
/// `levels` entries each.
pub open spec fn row_sum<T>(
    lut: Seq<T>,
    levels: int,
    index_at: spec_fn(int) -> u8,
    zero: T,
    plus: spec_fn(T, T) -> T,
    n: nat,
) -> T
    decreases n,
{
    if n == 0 {
        zero
    } else {
        plus(
            row_sum(lut, levels, index_at, zero, plus, (n - 1) as nat),
            lut[(n - 1) * levels + index_at(n - 1)],
        )
    }
}

/// The sum of the unrounded table entries of one slot of a batch.
fn slot_row_sum<T: Copy, A: Fn(T, T) -> T>(
    batch: &[u8],
    d: usize,
    slot: usize,
    lut: &[T],
    levels: usize,
    zero: T,
    plus: &A,
) -> (r: T)
    requires
        slot < 16,
        8 * d <= batch@.len(),
        lut@.len() == d * levels,
        is_function2(*plus),
        forall|c: int| 0 <= c < d ==> #[trigger] nibble_at(batch@, c, slot as int) < levels,
    ensures
        r == row_sum(
            lut@,
            levels as int,
            |c: int| nibble_at(batch@, c, slot as int),
            zero,
            |x: T, y: T| value_of2(*plus, x, y),
            d as nat,
        ),
{
    proof {
        assert(batch@.len() == batch.len());
        assert(lut@.len() == lut.len());
    }
    let s1_t = &batch[0..8 * d];
    let ghost at = |c: int| nibble_at(batch@, c, slot as int);
    let ghost p = |x: T, y: T| value_of2(*plus, x, y);
    let mut sum: T = zero;
    for c in 0..d
        invariant
            slot < 16,
            8 * d <= batch@.len(),
            s1_t@ == batch@.subrange(0, 8 * d),
            lut@.len() == d * levels,
            lut@.len() <= usize::MAX,
            is_function2(*plus),
            forall|c: int| 0 <= c < d ==> #[trigger] nibble_at(batch@, c, slot as int) < levels,
            at == (|c: int| nibble_at(batch@, c, slot as int)),
            p == (|x: T, y: T| value_of2(*plus, x, y)),
            sum == row_sum(lut@, levels as int, at, zero, p, c as nat),
    {
        let ghost before = sum;
        let idx: usize = batch_stage1_index(s1_t, c, slot) as usize;
        proof {
            assert(idx == nibble_at(batch@, c as int, slot as int));
            assert(idx == at(c as int));
            assert(0 <= c * levels && c * levels + idx < d * levels) by (nonlinear_arith)
                requires
                    0 <= c,
                    c + 1 <= d,
                    0 <= idx < levels,
            ;
        }
        let x: T = lut[c * levels + idx];
        sum = plus(sum, x);
        assert(sum == p(before, x));
    }
    sum
}

/// Scores every slot of a batch with the unrounded tables of the query:
/// `combine` gives the score of a slot from the sum of its table entries, its
/// norm, and the signed sum of the projected query.
pub fn score_batch_scalar<
    T: Copy,
    A: Fn(T, T) -> T,
    B: Fn(T, T) -> T,
    C: Fn((T, u32), T) -> T,
>(
    query: &TurboQuantQuery<T>,
    batch: &[u8],
    zero: T,
    plus: &A,
    minus: &B,
    combine: &C,
    out: &mut [T; 16],
)
    requires
        query.wf(),
        query.width() == 4 || query.width() == 5,
        batch_len(query.dim() as int) <= batch@.len(),
        is_function2(*plus),
        is_function2(*minus),
        is_function2(*combine),
        forall|c: int, slot: int|
            0 <= c < query.dim() && 0 <= slot < 16 ==> #[trigger] nibble_at(batch@, c, slot)
                < query.levels(),
    ensures
        forall|slot: int|
            0 <= slot < 16 ==> #[trigger] final(out)@[slot] == value_of2(
                *combine,
                (
                    row_sum(
                        query.lut(),
                        query.levels() as int,
                        |c: int| nibble_at(batch@, c, slot),
                        zero,
                        |x: T, y: T| value_of2(*plus, x, y),
                        query.dim(),
                    ),
                    le32_at(batch@, 10 * query.dim() + 4 * slot),
                ),
                signed_sum(
                    query.projected(),
                    |c: int| batch_sign(batch@, query.dim() as int, c, slot),
                    zero,
                    |x: T, y: T| value_of2(*plus, x, y),
                    |x: T, y: T| value_of2(*minus, x, y),
                    query.dim(),
                ),
            ),
{
    let d: usize = query.padded_dim();
    let (lut, levels) = query.s1_lut_view();
    let qjl = query.qjl_query_view();
    proof {
        assert(batch@.len() == batch.len());
    }
    let slab = &batch[10 * d..batch.len()];
    for slot in 0..16usize
        invariant
            query.wf(),
            d == query.dim(),
            lut@ == query.lut(),
            levels == query.levels(),
            qjl@ == query.projected(),
            batch_len(query.dim() as int) <= batch@.len(),
            slab@ == batch@.subrange(10 * d, batch@.len() as int),
            is_function2(*plus),
            is_function2(*minus),
            is_function2(*combine),
            forall|c: int, slot: int|
                0 <= c < query.dim() && 0 <= slot < 16 ==> #[trigger] nibble_at(batch@, c, slot)
                    < query.levels(),
            forall|s: int|
                0 <= s < slot ==> #[trigger] out@[s] == value_of2(
                    *combine,
                    (
                        row_sum(
                            query.lut(),
                            query.levels() as int,
                            |c: int| nibble_at(batch@, c, s),
                            zero,
                            |x: T, y: T| value_of2(*plus, x, y),
                            query.dim(),
                        ),
                        le32_at(batch@, 10 * query.dim() + 4 * s),
                    ),
                    signed_sum(
                        query.projected(),
                        |c: int| batch_sign(batch@, query.dim() as int, c, s),
                        zero,
                        |x: T, y: T| value_of2(*plus, x, y),
                        |x: T, y: T| value_of2(*minus, x, y),
                        query.dim(),
                    ),
                ),
    {
        let stage1: T = slot_row_sum(batch, d, slot, lut, levels, zero, plus);
        let stage2: T = slot_signed_sum(batch, d, slot, qjl, zero, plus, minus);
        let gamma: u32 = batch_gamma(slab, slot);
        proof {
            assert(le32_at(slab@, 4 * slot) == le32_at(batch@, 10 * d + 4 * slot));
        }
        let r: T = combine((stage1, gamma), stage2);
        out[slot] = r;
    }
}

/// The signed sum of a slot is that of the signs of its record.
pub proof fn law_batched_signs_match_record<T>(
    q: Seq<T>,
    batch: Seq<u8>,
    records: Seq<Seq<u8>>,
    slot: int,
    d: nat,
    bit_width: u8,
    zero: T,
    plus: spec_fn(T, T) -> T,
    minus: spec_fn(T, T) -> T,
)
    requires
        0 <= slot < records.len() <= 16,
        is_batch_of(batch, records, d as int, bit_width),
        q.len() == d,
    ensures
        signed_sum(q, |c: int| batch_sign(batch, d as int, c, slot), zero, plus, minus, d)
            == signed_sum(
            q,
            |c: int| bit_at(records[slot], 8 * stage2_start(d as int, bit_width) + c),
            zero,
            plus,
            minus,
            d,
        ),
{
    let f = |c: int| batch_sign(batch, d as int, c, slot);
    let g = |c: int| bit_at(records[slot], 8 * stage2_start(d as int, bit_width) + c);
    assert forall|c: int| 0 <= c < d implies #[trigger] f(c) == g(c) by {
        lemma_batch_sign_bit(batch, records, slot, d as int, bit_width, c);
    }
    lemma_signed_sum_congruent(q, f, g, zero, plus, minus, d);
}

/// The estimate of one encoded vector: what `combine` gives for the sum of the
/// table entries that its indices select, its norm, and the sum of the
/// projected query by its signs.
pub open spec fn estimate_of<
    T: Copy,
    A: Fn(T, T) -> T,
    B: Fn(T, T) -> T,
    C: Fn((T, u32), T) -> T,
>(query: TurboQuantQuery<T>, record: Seq<u8>, zero: T, plus: A, minus: B, combine: C) -> T {
    value_of2(
        combine,
        (
            row_sum(
                query.lut(),
                query.levels() as int,
                |c: int| index_at(record, s1_bits(query.width()), c),
                zero,
                |x: T, y: T| value_of2(plus, x, y),
                query.dim(),
            ),
            le32_at(record, norm_start(query.dim() as int, query.width())),
        ),
        signed_sum(
            query.projected(),
            |c: int| bit_at(record, 8 * stage2_start(query.dim() as int, query.width()) + c),
            zero,
            |x: T, y: T| value_of2(plus, x, y),
            |x: T, y: T| value_of2(minus, x, y),
            query.dim(),
        ),
    )
}

impl<T: Copy> TurboQuantQuery<T> {
    /// The inner-product estimate of one encoded vector: `combine` gives it from
    /// the sum of the table entries, the norm, and the signed sum of the
    /// projected query.
    pub fn estimate_ip<A: Fn(T, T) -> T, B: Fn(T, T) -> T, C: Fn((T, u32), T) -> T>(
        &self,
        record: &[u8],
        zero: T,
        plus: &A,
        minus: &B,
        combine: &C,
    ) -> (r: T)
        requires
            self.wf(),
            record_len(self.dim() as int, self.width()) <= record@.len(),
            is_function2(*plus),
            is_function2(*minus),
            is_function2(*combine),
            forall|x: u8, i: int|
                0 <= i < self.dim() && #[trigger] spelled(
                    record@,
                    i * s1_bits(self.width()),
                    s1_bits(self.width()),
                    x,
                ) ==> x < self.levels(),
        ensures
            r == estimate_of(*self, record@, zero, *plus, *minus, *combine),
    {
        let terms = self.estimate_terms(record);
        let d: usize = self.padded_dim();
        let qjl = self.qjl_query_view();
        let ghost w = s1_bits(self.width());
        let ghost k = self.levels() as int;
        let ghost at = |c: int| index_at(record@, w, c);
        let ghost sign = |c: int|
            bit_at(record@, 8 * stage2_start(self.dim() as int, self.width()) + c);
        let ghost p = |x: T, y: T| value_of2(*plus, x, y);
        let ghost m = |x: T, y: T| value_of2(*minus, x, y);
        let mut stage1: T = zero;
        let mut stage2: T = zero;
        for i in 0..d
            invariant
                d == self.dim(),
                terms.stage1@.len() == d,
                terms.signs@.len() == d,
                qjl@ == self.projected(),
                qjl@.len() == d,
                w == s1_bits(self.width()),
                k == self.levels(),
                at == (|c: int| index_at(record@, w, c)),
                sign == (|c: int|
                    bit_at(record@, 8 * stage2_start(self.dim() as int, self.width()) + c)),
                p == (|x: T, y: T| value_of2(*plus, x, y)),
                m == (|x: T, y: T| value_of2(*minus, x, y)),
                is_function2(*plus),
                is_function2(*minus),
                forall|x: u8, i: int|
                    0 <= i < d && #[trigger] spelled(record@, i * w, w, x) ==> terms.stage1@[i]
                        == self.lut()[i * k + x],
                forall|i: int| 0 <= i < d ==> #[trigger] terms.signs@[i] == sign(i),
                stage1 == row_sum(self.lut(), k, at, zero, p, i as nat),
                stage2 == signed_sum(self.projected(), sign, zero, p, m, i as nat),
        {
            let ghost before = (stage1, stage2);
            proof {
                lemma_index_at(record@, w, i as int);
                assert(terms.stage1@[i as int] == self.lut()[i * k + at(i as int)]);
            }
            stage1 = plus(stage1, terms.stage1[i]);
            assert(stage1 == p(before.0, terms.stage1@[i as int]));
            if terms.signs[i] {
                stage2 = plus(stage2, qjl[i]);
                assert(stage2 == p(before.1, qjl@[i as int]));
            } else {
                stage2 = minus(stage2, qjl[i]);
                assert(stage2 == m(before.1, qjl@[i as int]));
            }
        }
        combine((stage1, terms.gamma), stage2)
    }
}

proof fn lemma_row_sum_congruent<T>(
    lut: Seq<T>,
    levels: int,
    f: spec_fn(int) -> u8,
    g: spec_fn(int) -> u8,
    zero: T,
    plus: spec_fn(T, T) -> T,
    n: nat,
)
    requires
        forall|c: int| 0 <= c < n ==> #[trigger] f(c) == g(c),
    ensures
        row_sum(lut, levels, f, zero, plus, n) == row_sum(lut, levels, g, zero, plus, n),
    decreases n,
{
    if n > 0 {
        lemma_row_sum_congruent(lut, levels, f, g, zero, plus, (n - 1) as nat);
        assert(f(n - 1) == g(n - 1));
    }
}

/// Scoring a batch gives every record the estimate that it has on its own: what
/// the scores of the two are combined from is the same.
pub proof fn law_batched_scores_are_estimates<T>(
    lut: Seq<T>,
    levels: int,
    q: Seq<T>,
    batch: Seq<u8>,
    records: Seq<Seq<u8>>,
    slot: int,
    d: nat,
    bit_width: u8,
    zero: T,
    plus: spec_fn(T, T) -> T,
    minus: spec_fn(T, T) -> T,
)
    requires
        bit_width == 4 || bit_width == 5,
        0 <= slot < records.len() <= 16,
        is_batch_of(batch, records, d as int, bit_width),
        q.len() == d,
    ensures
        row_sum(lut, levels, |c: int| nibble_at(batch, c, slot), zero, plus, d) == row_sum(
            lut,
            levels,
            |c: int| index_at(records[slot], s1_bits(bit_width), c),
            zero,
            plus,
            d,
        ),
        le32_at(batch, 10 * d + 4 * slot) == le32_at(
            records[slot],
            norm_start(d as int, bit_width),
        ),
        signed_sum(q, |c: int| batch_sign(batch, d as int, c, slot), zero, plus, minus, d)
            == signed_sum(
            q,
            |c: int| bit_at(records[slot], 8 * stage2_start(d as int, bit_width) + c),
            zero,
            plus,
            minus,
            d,
        ),
{
    let f = |c: int| nibble_at(batch, c, slot);
    let g = |c: int| index_at(records[slot], s1_bits(bit_width), c);
    assert forall|c: int| 0 <= c < d implies #[trigger] f(c) == g(c) by {
        lemma_index_at(records[slot], s1_bits(bit_width), c);
        lemma_batch_nibble(batch, records, slot, d as int, bit_width, c, g(c));
    }
    lemma_row_sum_congruent(lut, levels, f, g, zero, plus, d);
    law_batched_signs_match_record(q, batch, records, slot, d, bit_width, zero, plus, minus);
}

/// `r` is at least the bound of every slot.
pub open spec fn bounds_all<B: Fn(i32, u32) -> u32>(
    partial: Stage1Partial,
    bound: B,
    r: u32,
) -> bool {
    forall|slot: int|
        0 <= slot < 16 ==> #[trigger] value_of2(
            bound,
            partial.stage1@[slot],
            partial.gammas@[slot],
        ) <= r
}

impl Stage1Partial {
    /// The largest bound on a score of the batch; `bound` gives the key of that
    /// of a slot from what the first pass found of it.
    pub fn max_score_upper_bound<B: Fn(i32, u32) -> u32>(&self, bound: &B) -> (r: u32)
        requires
            is_function2(*bound),
        ensures
            bounds_all(*self, *bound, r),
            r == 0 || exists|slot: int|
                0 <= slot < 16 && #[trigger] value_of2(
                    *bound,
                    self.stage1@[slot],
                    self.gammas@[slot],
                ) == r,
    {
        let mut best: u32 = 0;
        for slot in 0..16usize
            invariant
                is_function2(*bound),
                forall|s: int|
                    0 <= s < slot ==> #[trigger] value_of2(
                        *bound,
                        self.stage1@[s],
                        self.gammas@[s],
                    ) <= best,
                best == 0 || exists|s: int|
                    0 <= s < slot && #[trigger] value_of2(
                        *bound,
                        self.stage1@[s],
                        self.gammas@[s],
                    ) == best,
        {
            let x: u32 = bound(self.stage1[slot], self.gammas[slot]);
            assert(x == value_of2(
                *bound,
                self.stage1@[slot as int],
                self.gammas@[slot as int],
            ));
            if x > best {
                best = x;
            }
        }
        best
    }
}

} // verus!
