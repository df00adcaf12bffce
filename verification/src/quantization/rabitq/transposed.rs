//! Batches of thirty-two records, stored byte column by byte column.
//!
//! The binary codes and the four-bit extension codes are transposed, and the
//! factors that scoring needs are gathered; a batch is scored without going
//! back to its records.
use vstd::prelude::*;
use crate::arith::{lemma_total_step, total};
use crate::bits::{bytes_for, bytes_for_bits, le32_at, read_le32};
use crate::functions::{is_function2, value_of2};
use crate::quantization::rabitq::fastscan::{
    accumulate_batch, code_sum, code_views, is_transposed, law_batch_sums_match_single_codes,
    lemma_code_sum_congruent, lemma_nibbles, pack_batch_simple,
};
use crate::quantization::rabitq::record::{ex_bytes, ex_len, record_len};

verus! {

/// Records per batch.
pub const BATCH_DOCS: usize = 32;

/// Only four extension bits are supported.
pub fn is_supported_ex_bits(ex_bits: usize) -> (r: bool)
    ensures
        r == (ex_bits == 4),
{
    ex_bits == 4
}

pub open spec fn batch_len(padded_dims: int, ex_bits: int) -> int {
    32 * bytes_for(padded_dims) + 32 * ex_len(padded_dims, ex_bits) + 512
}

/// Bytes of a batch.
pub fn batch_bytes(padded_dims: usize, ex_bits: usize) -> (r: usize)
    requires
        padded_dims * ex_bits <= usize::MAX,
        batch_len(padded_dims as int, ex_bits as int) <= usize::MAX,
    ensures
        r == batch_len(padded_dims as int, ex_bits as int),
{
    let ghost e = ex_len(padded_dims as int, ex_bits as int);
    proof {
        assert(padded_dims * ex_bits >= 0) by (nonlinear_arith);
    }
    let binary_bytes: usize = bytes_for_bits(padded_dims) * BATCH_DOCS;
    let ex: usize = ex_bytes(padded_dims, ex_bits) * BATCH_DOCS;
    binary_bytes + ex + 4 * BATCH_DOCS * 4
}

/// Up to thirty-two records in transposed form. The factors are bit patterns
/// of single-precision numbers.
pub struct RabitqBatch {
    binary: Vec<u8>,
    ex: Vec<u8>,
    f_add: [u32; 32],
    f_rescale: [u32; 32],
    f_add_ex: [u32; 32],
    f_rescale_ex: [u32; 32],
}

/// Bytes `from..from + n` of each record.
pub open spec fn columns(records: Seq<Seq<u8>>, from: int, n: int) -> Seq<Seq<u8>> {
    Seq::new(records.len(), |i: int| records[i].subrange(from, from + n))
}

/// The word at `at` in each record, and zero where there is no record.
pub open spec fn word_column(words: Seq<u32>, records: Seq<Seq<u8>>, at: int) -> bool {
    &&& words.len() == 32
    &&& forall|s: int|
        0 <= s < 32 ==> #[trigger] words[s] == if s < records.len() {
            le32_at(records[s], at)
        } else {
            0
        }
}

/// What `step` makes of the first `n` bytes of extension codes, which hold the
/// codes of two dimensions each, and the coordinates of a query. A dimension
/// past the last one counts as zero.
pub open spec fn ex_dot<T>(
    byte_at: spec_fn(int) -> u8,
    query: Seq<T>,
    zero: T,
    step: spec_fn(T, (u8, u8, T, T)) -> T,
    n: nat,
) -> T
    decreases n,
{
    if n == 0 {
        zero
    } else {
        let dim = 2 * (n - 1);
        let byte = byte_at(n - 1);
        let next = if dim + 1 < query.len() {
            query[dim + 1]
        } else {
            zero
        };
        step(
            ex_dot(byte_at, query, zero, step, (n - 1) as nat),
            (byte & 0x0f, byte >> 4, query[dim], next),
        )
    }
}

/// Collects one slice of each record.
fn cut_columns<'a>(records: &[&'a [u8]], from: usize, n: usize) -> (r: Vec<&'a [u8]>)
    requires
        forall|i: int| 0 <= i < records@.len() ==> from + n <= (#[trigger] records@[i])@.len(),
    ensures
        r@.len() == records@.len(),
        forall|i: int| 0 <= i < r@.len() ==> (#[trigger] r@[i])@.len() == n,
        code_views(r@) == columns(code_views(records@), from as int, n as int),
{
    let mut r: Vec<&'a [u8]> = Vec::new();
    for i in 0..records.len()
        invariant
            forall|i: int| 0 <= i < records@.len() ==> from + n <= (#[trigger] records@[i])@.len(),
            r@.len() == i,
            forall|j: int|
                0 <= j < i ==> (#[trigger] r@[j])@ == records@[j]@.subrange(
                    from as int,
                    from + n,
                ),
    {
        let rec: &'a [u8] = records[i];
        proof {
            assert(rec@.len() == rec.len());
        }
        r.push(&rec[from..from + n]);
    }
    proof {
        assert(code_views(r@) =~= columns(code_views(records@), from as int, n as int));
    }
    r
}

/// Reads one word of each record.
fn cut_words(records: &[&[u8]], at: usize) -> (words: [u32; 32])
    requires
        records@.len() <= 32,
        forall|i: int| 0 <= i < records@.len() ==> at + 4 <= (#[trigger] records@[i])@.len(),
    ensures
        word_column(words@, code_views(records@), at as int),
{
    let mut words: [u32; 32] = [0u32; 32];
    for i in 0..records.len()
        invariant
            records@.len() <= 32,
            forall|i: int| 0 <= i < records@.len() ==> at + 4 <= (#[trigger] records@[i])@.len(),
            forall|s: int|
                0 <= s < 32 ==> #[trigger] words@[s] == if s < i {
                    le32_at(records@[s]@, at as int)
                } else {
                    0
                },
    {
        words[i] = read_le32(records[i], at);
    }
    words
}

impl RabitqBatch {
    pub closed spec fn binary_view(self) -> Seq<u8> {
        self.binary@
    }

    pub closed spec fn ex_view(self) -> Seq<u8> {
        self.ex@
    }

    pub closed spec fn f_add_view(self) -> Seq<u32> {
        self.f_add@
    }

    pub closed spec fn f_rescale_view(self) -> Seq<u32> {
        self.f_rescale@
    }

    pub closed spec fn f_add_ex_view(self) -> Seq<u32> {
        self.f_add_ex@
    }

    pub closed spec fn f_rescale_ex_view(self) -> Seq<u32> {
        self.f_rescale_ex@
    }

    /// The batch holds `records`, of `padded_dims` dimensions and `ex_bits`
    /// extension bits.
    pub open spec fn holds(self, records: Seq<Seq<u8>>, padded_dims: int, ex_bits: int) -> bool {
        let b = bytes_for(padded_dims);
        let e = ex_len(padded_dims, ex_bits);
        &&& self.binary_view().len() == 32 * b
        &&& self.ex_view().len() == 32 * e
        &&& is_transposed(self.binary_view(), columns(records, 0, b), b)
        &&& is_transposed(self.ex_view(), columns(records, b, e), e)
        &&& word_column(self.f_add_view(), records, b + e + 8)
        &&& word_column(self.f_rescale_view(), records, b + e + 12)
        &&& word_column(self.f_add_ex_view(), records, b + e + 24)
        &&& word_column(self.f_rescale_ex_view(), records, b + e + 28)
    }

    /// Transposes up to thirty-two records.
    pub fn encode(records: &[&[u8]], padded_dims: usize, ex_bits: usize) -> (r: RabitqBatch)
        requires
            records@.len() <= 32,
            ex_bits == 4,
            padded_dims * ex_bits <= usize::MAX,
            batch_len(padded_dims as int, ex_bits as int) <= usize::MAX,
            forall|i: int|
                0 <= i < records@.len() ==> record_len(padded_dims as int, ex_bits as int) <= (
                #[trigger] records@[i])@.len(),
        ensures
            r.holds(code_views(records@), padded_dims as int, ex_bits as int),
    {
        let b: usize = bytes_for_bits(padded_dims);
        let e: usize = ex_bytes(padded_dims, ex_bits);
        let at: usize = b + e;
        let mut binary: Vec<u8> = vec![0u8; b * BATCH_DOCS];
        let mut ex: Vec<u8> = vec![0u8; e * BATCH_DOCS];
        let binary_refs = cut_columns(records, 0, b);
        pack_batch_simple(&binary_refs, b, &mut binary);
        let ex_refs = cut_columns(records, b, e);
        pack_batch_simple(&ex_refs, e, &mut ex);
        RabitqBatch {
            binary,
            ex,
            f_add: cut_words(records, at + 8),
            f_rescale: cut_words(records, at + 12),
            f_add_ex: cut_words(records, at + 24),
            f_rescale_ex: cut_words(records, at + 28),
        }
    }

    /// The table sums of the binary codes, one per slot.
    pub fn binary_sums(&self, lut_u8: &[u8], padded_dims: usize) -> (sums: [u32; 32])
        requires
            self.binary_view().len() == 32 * bytes_for(padded_dims as int),
            padded_dims > 0 ==> 32 * bytes_for(padded_dims as int) - 16 <= lut_u8@.len(),
            510 * bytes_for(padded_dims as int) <= u32::MAX,
            32 * bytes_for(padded_dims as int) <= usize::MAX,
        ensures
            forall|slot: int|
                0 <= slot < 32 ==> #[trigger] sums@[slot] == code_sum(
                    lut_u8@,
                    |col: int| self.binary_view()[32 * col + slot],
                    bytes_for(padded_dims as int) as nat,
                ),
    {
        let mut sums: [u32; 32] = [0u32; 32];
        accumulate_batch(&self.binary, lut_u8, bytes_for_bits(padded_dims), &mut sums);
        sums
    }

    /// The four-bit extension code of one dimension of one slot: the lower
    /// nibble of a byte for an even dimension, the upper one for an odd.
    pub fn ex_code(&self, dim: usize, slot: usize) -> (code: u8)
        requires
            slot < 32,
            16 * dim + 32 <= usize::MAX,
            32 * (dim / 2) + 32 <= self.ex_view().len(),
        ensures
            code == if dim % 2 == 0 {
                self.ex_view()[32 * (dim as int / 2) + slot] & 0x0f
            } else {
                self.ex_view()[32 * (dim as int / 2) + slot] >> 4
            },
    {
        let byte: u8 = self.ex[dim / 2 * BATCH_DOCS + slot];
        if dim % 2 == 0 {
            byte & 0x0f
        } else {
            byte >> 4
        }
    }

    /// The factors of one slot: those of the binary score, then those of the
    /// extended score.
    pub fn factors(&self, slot: usize) -> (r: (u32, u32, u32, u32))
        requires
            slot < 32,
        ensures
            r.0 == self.f_add_view()[slot as int],
            r.1 == self.f_rescale_view()[slot as int],
            r.2 == self.f_add_ex_view()[slot as int],
            r.3 == self.f_rescale_ex_view()[slot as int],
    {
        (self.f_add[slot], self.f_rescale[slot], self.f_add_ex[slot], self.f_rescale_ex[slot])
    }

    /// What `step` makes of the extension codes of one slot and a query.
    fn ex_dot_of<T: Copy, S: Fn(T, (u8, u8, T, T)) -> T>(
        &self,
        slot: usize,
        rotated_query: &[T],
        zero: T,
        step: &S,
        n: usize,
    ) -> (dot: T)
        requires
            slot < 32,
            32 * n <= self.ex_view().len(),
            2 * n <= rotated_query@.len() + 1,
            is_function2(*step),
        ensures
            dot == ex_dot(
                |col: int| self.ex_view()[32 * col + slot],
                rotated_query@,
                zero,
                |a: T, b: (u8, u8, T, T)| value_of2(*step, a, b),
                n as nat,
            ),
    {
        let ghost at = |col: int| self.ex_view()[32 * col + slot];
        let ghost s = |a: T, b: (u8, u8, T, T)| value_of2(*step, a, b);
        let mut dot: T = zero;
        proof {
            assert(rotated_query@.len() == rotated_query.len());
            assert(self.ex@.len() == self.ex.len());
        }
        for col in 0..n
            invariant
                slot < 32,
                32 * n <= self.ex_view().len(),
                self.ex@.len() <= usize::MAX,
                2 * n <= rotated_query@.len() + 1,
                rotated_query@.len() <= usize::MAX,
                is_function2(*step),
                at == (|col: int| self.ex_view()[32 * col + slot]),
                s == (|a: T, b: (u8, u8, T, T)| value_of2(*step, a, b)),
                dot == ex_dot(at, rotated_query@, zero, s, col as nat),
        {
            let ghost before = dot;
            let dim: usize = 2 * col;
            let byte: u8 = self.ex[BATCH_DOCS * col + slot];
            let q0: T = rotated_query[dim];
            let q1: T = if dim + 1 < rotated_query.len() {
                rotated_query[dim + 1]
            } else {
                zero
            };
            dot = step(dot, (byte & 0x0f, byte >> 4, q0, q1));
            proof {
                assert(byte == at(col as int));
                assert(dot == s(before, (byte & 0x0f, byte >> 4, q0, q1)));
            }
        }
        dot
    }

    /// The score of one slot: what `combine` gives for the table sum of its
    /// binary code, what `step` makes of its extension code, and its two
    /// factors.
    pub open spec fn slot_score<
        T: Copy,
        S: Fn(T, (u8, u8, T, T)) -> T,
        C: Fn((u32, T), (u32, u32)) -> T,
    >(
        self,
        lut_u8: Seq<u8>,
        rotated_query: Seq<T>,
        padded_dims: int,
        zero: T,
        step: S,
        combine: C,
        slot: int,
    ) -> T {
        value_of2(
            combine,
            (
                code_sum(
                    lut_u8,
                    |col: int| self.binary_view()[32 * col + slot],
                    bytes_for(padded_dims) as nat,
                ) as u32,
                ex_dot(
                    |col: int| self.ex_view()[32 * col + slot],
                    rotated_query,
                    zero,
                    |a: T, b: (u8, u8, T, T)| value_of2(step, a, b),
                    ex_len(padded_dims, 4) as nat,
                ),
            ),
            (self.f_add_ex_view()[slot], self.f_rescale_ex_view()[slot]),
        )
    }

    /// Scores every slot: `combine` gives the score from the table sum of the
    /// binary code and what `step` makes of the extension code, and from the
    /// two factors of the extended score.
    pub fn score<T: Copy, S: Fn(T, (u8, u8, T, T)) -> T, C: Fn((u32, T), (u32, u32)) -> T>(
        &self,
        lut_u8: &[u8],
        rotated_query: &[T],
        padded_dims: usize,
        zero: T,
        step: &S,
        combine: &C,
        out: &mut [T; 32],
    )
        requires
            self.binary_view().len() == 32 * bytes_for(padded_dims as int),
            self.ex_view().len() == 32 * ex_len(padded_dims as int, 4),
            padded_dims > 0 ==> 32 * bytes_for(padded_dims as int) - 16 <= lut_u8@.len(),
            510 * bytes_for(padded_dims as int) <= u32::MAX,
            32 * bytes_for(padded_dims as int) <= usize::MAX,
            padded_dims <= rotated_query@.len(),
            is_function2(*step),
            is_function2(*combine),
        ensures
            forall|slot: int|
                0 <= slot < 32 ==> #[trigger] final(out)@[slot] == self.slot_score(
                    lut_u8@,
                    rotated_query@,
                    padded_dims as int,
                    zero,
                    *step,
                    *combine,
                    slot,
                ),
    {
        let sums = self.binary_sums(lut_u8, padded_dims);
        let n: usize = padded_dims / 2 + padded_dims % 2;
        assert(n == ex_len(padded_dims as int, 4));
        for slot in 0..32usize
            invariant
                n == ex_len(padded_dims as int, 4),
                self.ex_view().len() == 32 * n,
                2 * n <= rotated_query@.len() + 1,
                is_function2(*step),
                is_function2(*combine),
                forall|s: int|
                    0 <= s < 32 ==> #[trigger] sums@[s] == code_sum(
                        lut_u8@,
                        |col: int| self.binary_view()[32 * col + s],
                        bytes_for(padded_dims as int) as nat,
                    ),
                forall|s: int|
                    0 <= s < slot ==> #[trigger] out@[s] == self.slot_score(
                        lut_u8@,
                        rotated_query@,
                        padded_dims as int,
                        zero,
                        *step,
                        *combine,
                        s,
                    ),
        {
            let dot: T = self.ex_dot_of(slot, rotated_query, zero, step, n);
            let r: T = combine(
                (sums[slot], dot),
                (self.f_add_ex[slot], self.f_rescale_ex[slot]),
            );
            out[slot] = r;
        }
    }

    /// Bytes that the batch takes up.
    pub fn bytes(&self) -> (r: usize)
        requires
            self.binary_view().len() + self.ex_view().len() + 512 <= usize::MAX,
        ensures
            r == self.binary_view().len() + self.ex_view().len() + 512,
    {
        self.binary.len() + self.ex.len() + 4 * BATCH_DOCS * 4
    }
}

/// An encoded batch takes up the bytes that its shape promises.
pub proof fn law_batch_bytes(
    batch: RabitqBatch,
    records: Seq<Seq<u8>>,
    padded_dims: int,
    ex_bits: int,
)
    requires
        batch.holds(records, padded_dims, ex_bits),
    ensures
        batch.binary_view().len() + batch.ex_view().len() + 512 == batch_len(padded_dims, ex_bits),
{
}

/// The binary sum of a slot is the table sum of the binary code of its record.
pub proof fn law_batch_scores_match_records(
    batch: RabitqBatch,
    records: Seq<Seq<u8>>,
    padded_dims: int,
    ex_bits: int,
    lut: Seq<u8>,
    slot: int,
)
    requires
        padded_dims >= 0,
        batch.holds(records, padded_dims, ex_bits),
        0 <= slot < records.len() <= 32,
        bytes_for(padded_dims) <= records[slot].len(),
    ensures
        code_sum(
            lut,
            |col: int| batch.binary_view()[32 * col + slot],
            bytes_for(padded_dims) as nat,
        ) == code_sum(
            lut,
            |col: int| records[slot][col],
            bytes_for(padded_dims) as nat,
        ),
{
    let b = bytes_for(padded_dims);
    let cut = columns(records, 0, b);
    law_batch_sums_match_single_codes(lut, batch.binary_view(), cut, b as nat, slot);
    let f = |col: int| cut[slot][col];
    let g = |col: int| records[slot][col];
    assert forall|c: int| 0 <= c < b implies #[trigger] f(c) == g(c) by {}
    lemma_code_sum_congruent(lut, f, g, b as nat);
}

/// With an exact step, the dot product of extension codes and a query is the
/// total of code times coordinate: the lower nibble of a byte is the code of an
/// even dimension, the upper one that of the next.
pub proof fn law_extension_dots_are_exact<T>(
    num: spec_fn(T) -> int,
    byte_at: spec_fn(int) -> u8,
    query: Seq<T>,
    zero: T,
    step: spec_fn(T, (u8, u8, T, T)) -> T,
    n: nat,
)
    requires
        num(zero) == 0,
        2 * n <= query.len() + 1,
        forall|a: T, b: (u8, u8, T, T)|
            num(#[trigger] step(a, b)) == num(a) + b.0 * num(b.2) + b.1 * num(b.3),
    ensures
        num(ex_dot(byte_at, query, zero, step, n)) == total(
            2 * n,
            |d: int|
                (if d % 2 == 0 {
                    byte_at(d / 2) % 16
                } else {
                    byte_at(d / 2) / 16
                }) * (if d < query.len() {
                    num(query[d])
                } else {
                    0
                }),
        ),
    decreases n,
{
    let term = |d: int|
        (if d % 2 == 0 {
            byte_at(d / 2) % 16
        } else {
            byte_at(d / 2) / 16
        }) * (if d < query.len() {
            num(query[d])
        } else {
            0
        });
    if n == 0 {
        lemma_total_step(0, term);
    } else {
        let c = n - 1;
        law_extension_dots_are_exact(num, byte_at, query, zero, step, c as nat);
        lemma_total_step((2 * c) as nat, term);
        lemma_total_step((2 * c + 1) as nat, term);
        lemma_nibbles(byte_at(c));
        assert((2 * c) / 2 == c && (2 * c + 1) / 2 == c);
    }
}

} // verus!
