//! A collection of records, kept as they are or in transposed batches.
use vstd::prelude::*;
use vstd::arithmetic::div_mod::lemma_fundamental_div_mod_converse;
use crate::arith::smaller;
use crate::bits::bytes_for;
use crate::functions::{
    is_function, is_function2, is_slice_function_from, lemma_value_on_from, value_of, value_on,
};
use crate::metrics::{are_top, top_k_by_score, ScoredDoc};
use crate::quantization::factory::RECALL_QUANT_BITS;
use crate::quantization::rabitq::fastscan::code_views;
use crate::quantization::rabitq::record::{bytes_per_record, record_fits, record_len};
use crate::quantization::rabitq::transposed::{
    batch_len, is_supported_ex_bits, law_batch_bytes, RabitqBatch, BATCH_DOCS,
};

verus! {

/// How the scale of a code is chosen: once for all vectors, or for each.
#[derive(Debug, Clone, Copy, PartialEq, Eq, Structural)]
pub enum RabitqVariant {
    Fixed,
    Optimal,
}

impl RabitqVariant {
    pub fn name(self) -> (r: &'static str)
        ensures
            self == RabitqVariant::Fixed ==> r@ == "fixed"@,
            self == RabitqVariant::Optimal ==> r@ == "optimal"@,
    {
        match self {
            RabitqVariant::Fixed => "fixed",
            RabitqVariant::Optimal => "optimal",
        }
    }
}

/// Records of one collection.
pub struct RabitqBench {
    pub padded_dims: usize,
    pub variant: RabitqVariant,
    pub use_transposed: bool,
    pub records: Vec<Vec<u8>>,
    pub batches: Vec<RabitqBatch>,
    pub doc_count: usize,
}

/// The bytes of the records from `lo` to `hi`.
pub open spec fn rows(records: Seq<Vec<u8>>, lo: int, hi: int) -> Seq<Seq<u8>> {
    Seq::new((hi - lo) as nat, |i: int| records[lo + i]@)
}

/// Where the batch that starts at `lo` ends.
pub open spec fn batch_end(total: int, lo: int) -> int {
    if lo + 32 <= total {
        lo + 32
    } else {
        total
    }
}

/// The records, thirty-two to a batch and in order.
pub open spec fn is_batched(
    batches: Seq<RabitqBatch>,
    records: Seq<Vec<u8>>,
    padded_dims: int,
) -> bool {
    &&& batches.len() == (records.len() + 31) / 32
    &&& forall|i: int|
        0 <= i < batches.len() ==> (#[trigger] batches[i]).holds(
            rows(records, 32 * i, batch_end(records.len() as int, 32 * i)),
            padded_dims,
            4,
        )
}

/// Total length of the first `n` records.
pub open spec fn total_len(records: Seq<Vec<u8>>, n: nat) -> nat
    decreases n,
{
    if n == 0 {
        0
    } else {
        total_len(records, (n - 1) as nat) + records[n - 1]@.len()
    }
}

proof fn lemma_total_len_monotone(records: Seq<Vec<u8>>, a: nat, b: nat)
    requires
        a <= b,
    ensures
        total_len(records, a) <= total_len(records, b),
    decreases b,
{
    if a < b {
        lemma_total_len_monotone(records, a, (b - 1) as nat);
    }
}

impl RabitqBench {
    /// The records are counted, and the batches hold them where the transposed
    /// form was in use when they came.
    pub open spec fn wf(self) -> bool {
        &&& self.doc_count == self.records@.len()
        &&& self.batches@.len() == 0 || is_batched(
            self.batches@,
            self.records@,
            self.padded_dims as int,
        )
    }

    pub fn new(padded_dims: usize, variant: RabitqVariant) -> (r: RabitqBench)
        ensures
            r.wf(),
            r.padded_dims == padded_dims,
            r.variant == variant,
            !r.use_transposed,
            r.records@.len() == 0,
            r.batches@.len() == 0,
    {
        RabitqBench {
            padded_dims,
            variant,
            use_transposed: false,
            records: Vec::new(),
            batches: Vec::new(),
            doc_count: 0,
        }
    }

    /// Extension bits: all but the sign.
    pub fn ex_bits(&self) -> (r: usize)
        ensures
            r == 4,
    {
        RECALL_QUANT_BITS as usize - 1
    }

    pub fn scoring_layout(&self) -> (r: &'static str)
        ensures
            self.use_transposed ==> r@ == "transposed"@,
            !self.use_transposed ==> r@ == "doc-major"@,
    {
        if self.use_transposed {
            "transposed"
        } else {
            "doc-major"
        }
    }

    pub fn bits(&self) -> (r: u8)
        ensures
            r == 5,
    {
        RECALL_QUANT_BITS
    }

    /// Asks for the transposed form; says whether it is in use from now on.
    pub fn set_transposed(&mut self, enabled: bool) -> (r: bool)
        ensures
            r == enabled,
            final(self).use_transposed == enabled,
            final(self).records@ == old(self).records@,
            final(self).batches@ == old(self).batches@,
            final(self).doc_count == old(self).doc_count,
            final(self).padded_dims == old(self).padded_dims,
            final(self).variant == old(self).variant,
    {
        self.use_transposed = enabled && is_supported_ex_bits(self.ex_bits());
        self.use_transposed
    }

    /// Takes the records of a collection in, in transposed form where that is
    /// in use.
    pub fn encode(&mut self, records: Vec<Vec<u8>>)
        requires
            old(self).padded_dims * 4 <= usize::MAX,
            batch_len(old(self).padded_dims as int, 4) <= usize::MAX,
            forall|i: int|
                0 <= i < records@.len() ==> record_len(old(self).padded_dims as int, 4) <= (
                #[trigger] records@[i])@.len(),
        ensures
            final(self).wf(),
            final(self).records@ == records@,
            final(self).use_transposed == old(self).use_transposed,
            final(self).padded_dims == old(self).padded_dims,
            final(self).variant == old(self).variant,
            old(self).use_transposed ==> is_batched(
                final(self).batches@,
                records@,
                old(self).padded_dims as int,
            ),
            !old(self).use_transposed ==> final(self).batches@.len() == 0,
    {
        let padded: usize = self.padded_dims;
        let mut batches: Vec<RabitqBatch> = Vec::new();
        if self.use_transposed {
            let total: usize = records.len();
            let mut lo: usize = 0;
            while lo < total
                invariant
                    total == records@.len(),
                    padded * 4 <= usize::MAX,
                    batch_len(padded as int, 4) <= usize::MAX,
                    forall|i: int|
                        0 <= i < records@.len() ==> record_len(padded as int, 4) <= (
                        #[trigger] records@[i])@.len(),
                    lo <= total,
                    batches@.len() == (lo + 31) / 32,
                    lo == total || lo == 32 * batches@.len(),
                    forall|i: int|
                        0 <= i < batches@.len() ==> (#[trigger] batches@[i]).holds(
                            rows(records@, 32 * i, batch_end(total as int, 32 * i)),
                            padded as int,
                            4,
                        ),
                decreases total - lo,
            {
                let hi: usize = if total - lo >= BATCH_DOCS {
                    lo + BATCH_DOCS
                } else {
                    total
                };
                let mut refs: Vec<&[u8]> = Vec::new();
                for i in lo..hi
                    invariant
                        lo <= i <= hi <= records@.len(),
                        refs@.len() == i - lo,
                        forall|j: int|
                            0 <= j < refs@.len() ==> (#[trigger] refs@[j])@ == records@[lo + j]@,
                {
                    refs.push(records[i].as_slice());
                }
                proof {
                    assert(code_views(refs@) =~= rows(records@, lo as int, hi as int));
                    assert forall|i: int| 0 <= i < refs@.len() implies record_len(padded as int, 4)
                        <= (#[trigger] refs@[i])@.len() by {
                        assert(refs@[i]@ == records@[lo + i]@);
                    }
                }
                batches.push(RabitqBatch::encode(&refs, padded, 4));
                lo = hi;
            }
        }
        self.doc_count = records.len();
        self.records = records;
        self.batches = batches;
    }

    /// The number of bytes of all records, in the form that is in use.
    pub fn total_bytes(&self) -> (r: usize)
        requires
            self.wf(),
            self.use_transposed ==> self.batches@.len() * batch_len(self.padded_dims as int, 4)
                <= usize::MAX,
            !self.use_transposed ==> total_len(self.records@, self.records@.len()) <= usize::MAX,
        ensures
            self.use_transposed ==> r == self.batches@.len() * batch_len(self.padded_dims as int, 4),
            !self.use_transposed ==> r == total_len(self.records@, self.records@.len()),
    {
        let mut total: usize = 0;
        if self.use_transposed {
            let ghost b = batch_len(self.padded_dims as int, 4);
            proof {
                assert(bytes_for(self.padded_dims as int) >= 0);
                assert(0 * b == 0) by (nonlinear_arith);
            }
            for i in 0..self.batches.len()
                invariant
                    self.wf(),
                    b == batch_len(self.padded_dims as int, 4),
                    b >= 0,
                    self.batches@.len() * b <= usize::MAX,
                    total == i * b,
            {
                proof {
                    let j = i as int;
                    law_batch_bytes(
                        self.batches@[j],
                        rows(
                            self.records@,
                            32 * j,
                            batch_end(self.records@.len() as int, 32 * j),
                        ),
                        self.padded_dims as int,
                        4,
                    );
                    assert((i + 1) * b == i * b + b) by (nonlinear_arith);
                    assert((i + 1) * b <= self.batches@.len() * b) by (nonlinear_arith)
                        requires
                            i + 1 <= self.batches@.len(),
                            b >= 0,
                    ;
                    assert(i * b >= 0) by (nonlinear_arith)
                        requires
                            b >= 0,
                    ;
                }
                total += self.batches[i].bytes();
            }
        } else {
            for i in 0..self.records.len()
                invariant
                    total_len(self.records@, self.records@.len()) <= usize::MAX,
                    total == total_len(self.records@, i as nat),
            {
                proof {
                    lemma_total_len_monotone(self.records@, (i + 1) as nat, self.records@.len());
                }
                total += self.records[i].len();
            }
        }
        total
    }

    /// Bytes per record: the rounded-up average in transposed form, the length
    /// of a record otherwise.
    pub fn bytes_per_vector(&self) -> (r: usize)
        requires
            self.wf(),
            record_fits(self.padded_dims as int, 4),
            self.use_transposed ==> self.batches@.len() * batch_len(self.padded_dims as int, 4)
                <= usize::MAX,
        ensures
            self.use_transposed && self.doc_count > 0 ==> r == (self.batches@.len() * batch_len(
                self.padded_dims as int,
                4,
            ) + self.doc_count - 1) / (self.doc_count as int),
            !(self.use_transposed && self.doc_count > 0) ==> r == record_len(
                self.padded_dims as int,
                4,
            ),
    {
        if self.use_transposed && self.doc_count > 0 {
            crate::arith::div_ceil(self.total_bytes(), self.doc_count)
        } else {
            bytes_per_record(self.padded_dims, self.ex_bits())
        }
    }
}

/// Pairs the slots of batch `batch_idx` with the documents they belong to: slot
/// `s` is document `batch_idx * BATCH_DOCS + s`, and slots past the last
/// document are dropped.
pub fn slot_documents<T: Copy>(doc_ids: &[u64], batch_idx: usize, scores: &[T; 32]) -> (r: Vec<
    (u64, T),
>)
    requires
        batch_idx * 32 <= doc_ids@.len(),
    ensures
        r@.len() == batch_end(doc_ids@.len() as int, batch_idx * 32) - batch_idx * 32,
        forall|s: int|
            0 <= s < r@.len() ==> #[trigger] r@[s] == (doc_ids@[batch_idx * 32 + s], scores@[s]),
{
    let mut r: Vec<(u64, T)> = Vec::new();
    proof {
        assert(doc_ids@.len() == doc_ids.len());
    }
    let start: usize = batch_idx * BATCH_DOCS;
    let end: usize = if doc_ids.len() - start >= BATCH_DOCS {
        start + BATCH_DOCS
    } else {
        doc_ids.len()
    };
    for i in start..end
        invariant
            start == batch_idx * 32,
            start <= i <= end <= doc_ids@.len(),
            end - start <= 32,
            r@.len() == i - start,
            forall|s: int|
                0 <= s < r@.len() ==> #[trigger] r@[s] == (doc_ids@[start + s], scores@[s]),
    {
        r.push((doc_ids[i], scores[i - start]));
    }
    r
}

impl RabitqBench {
    /// Every record that has an id, with the key of its estimate.
    pub open spec fn scored_records<F: Fn(&[u8]) -> u32>(
        self,
        doc_ids: Seq<u64>,
        estimate: F,
    ) -> Seq<ScoredDoc> {
        Seq::new(
            smaller(self.records@.len(), doc_ids.len()),
            |i: int|
                ScoredDoc { score: value_on(estimate, self.records@[i]@), id: doc_ids[i] },
        )
    }

    /// The `k` best records, best first. `estimate` gives the key of the estimate
    /// of a record.
    pub fn top_k<F: Fn(&[u8]) -> u32>(&self, doc_ids: &[u64], k: usize, estimate: &F) -> (top: Vec<
        ScoredDoc,
    >)
        requires
            is_slice_function_from(*estimate, record_len(self.padded_dims as int, 4)),
            forall|i: int|
                0 <= i < self.records@.len() ==> record_len(self.padded_dims as int, 4) <= (
                #[trigger] self.records@[i])@.len(),
        ensures
            are_top(self.scored_records(doc_ids@, *estimate), top@, k as nat),
    {
        let ghost all = self.scored_records(doc_ids@, *estimate);
        let n: usize = if self.records.len() <= doc_ids.len() {
            self.records.len()
        } else {
            doc_ids.len()
        };
        let mut scored: Vec<ScoredDoc> = Vec::new();
        for i in 0..n
            invariant
                n == smaller(self.records@.len(), doc_ids@.len()),
                is_slice_function_from(*estimate, record_len(self.padded_dims as int, 4)),
                forall|i: int|
                    0 <= i < self.records@.len() ==> record_len(self.padded_dims as int, 4) <= (
                    #[trigger] self.records@[i])@.len(),
                all == self.scored_records(doc_ids@, *estimate),
                scored@ == all.take(i as int),
        {
            let record: &[u8] = self.records[i].as_slice();
            assert(record@ == self.records@[i as int]@);
            let score: u32 = estimate(record);
            proof {
                lemma_value_on_from(
                    *estimate,
                    record_len(self.padded_dims as int, 4),
                    record,
                    score,
                );
            }
            scored.push(ScoredDoc { score, id: doc_ids[i] });
            assert(scored@ =~= all.take(i + 1));
        }
        assert(all.take(n as int) =~= all);
        top_k_by_score(&scored, k)
    }

    /// Every slot that has an id, with the key of its score: document `i` is in
    /// slot `i % 32` of batch `i / 32`.
    pub open spec fn scored_slots<
        T: Copy,
        S: Fn(T, (u8, u8, T, T)) -> T,
        C: Fn((u32, T), (u32, u32)) -> T,
        K: Fn(T) -> u32,
    >(
        self,
        doc_ids: Seq<u64>,
        lut_u8: Seq<u8>,
        rotated_query: Seq<T>,
        zero: T,
        step: S,
        combine: C,
        key: K,
    ) -> Seq<ScoredDoc> {
        Seq::new(
            smaller(32 * self.batches@.len(), doc_ids.len()),
            |i: int|
                ScoredDoc {
                    score: value_of(
                        key,
                        self.batches@[i / 32].slot_score(
                            lut_u8,
                            rotated_query,
                            self.padded_dims as int,
                            zero,
                            step,
                            combine,
                            i % 32,
                        ),
                    ),
                    id: doc_ids[i],
                },
        )
    }

    /// The `k` best documents by the scores of their slots, best first. `key`
    /// orders scores.
    pub fn top_k_transposed<
        T: Copy,
        S: Fn(T, (u8, u8, T, T)) -> T,
        C: Fn((u32, T), (u32, u32)) -> T,
        K: Fn(T) -> u32,
    >(
        &self,
        doc_ids: &[u64],
        lut_u8: &[u8],
        rotated_query: &[T],
        k: usize,
        zero: T,
        step: &S,
        combine: &C,
        key: &K,
    ) -> (top: Vec<ScoredDoc>)
        requires
            self.wf(),
            self.padded_dims > 0 ==> 32 * bytes_for(self.padded_dims as int) - 16 <= lut_u8@.len(),
            510 * bytes_for(self.padded_dims as int) <= u32::MAX,
            32 * bytes_for(self.padded_dims as int) <= usize::MAX,
            self.padded_dims <= rotated_query@.len(),
            32 * self.batches@.len() <= doc_ids@.len() + 32,
            is_function2(*step),
            is_function2(*combine),
            is_function(*key),
        ensures
            are_top(
                self.scored_slots(doc_ids@, lut_u8@, rotated_query@, zero, *step, *combine, *key),
                top@,
                k as nat,
            ),
    {
        let ghost all = self.scored_slots(
            doc_ids@,
            lut_u8@,
            rotated_query@,
            zero,
            *step,
            *combine,
            *key,
        );
        let padded: usize = self.padded_dims;
        let mut scored: Vec<ScoredDoc> = Vec::new();
        assert(scored@ =~= all.take(0));
        for b in 0..self.batches.len()
            invariant
                self.wf(),
                padded == self.padded_dims,
                padded > 0 ==> 32 * bytes_for(padded as int) - 16 <= lut_u8@.len(),
                510 * bytes_for(padded as int) <= u32::MAX,
                32 * bytes_for(padded as int) <= usize::MAX,
                padded <= rotated_query@.len(),
                32 * self.batches@.len() <= doc_ids@.len() + 32,
                is_function2(*step),
                is_function2(*combine),
                is_function(*key),
                all == self.scored_slots(
                    doc_ids@,
                    lut_u8@,
                    rotated_query@,
                    zero,
                    *step,
                    *combine,
                    *key,
                ),
                scored@ == all.take(smaller(32 * b as nat, doc_ids@.len()) as int),
        {
            let mut out: [T; 32] = [zero; 32];
            proof {
                let j = b as int;
                assert(self.batches@[j].holds(
                    rows(self.records@, 32 * j, batch_end(self.records@.len() as int, 32 * j)),
                    padded as int,
                    4,
                ));
            }
            self.batches[b].score(lut_u8, rotated_query, padded, zero, step, combine, &mut out);
            let docs = slot_documents(doc_ids, b, &out);
            let ghost start = 32 * b;
            assert(start <= doc_ids@.len());
            for s in 0..docs.len()
                invariant
                    b < self.batches@.len(),
                    padded == self.padded_dims,
                    start == 32 * b,
                    start <= doc_ids@.len(),
                    docs@.len() == batch_end(doc_ids@.len() as int, start as int) - start,
                    forall|s: int|
                        0 <= s < docs@.len() ==> #[trigger] docs@[s] == (
                            doc_ids@[b * 32 + s],
                            out@[s],
                        ),
                    forall|slot: int|
                        0 <= slot < 32 ==> #[trigger] out@[slot] == self.batches@[b as int].slot_score(
                            lut_u8@,
                            rotated_query@,
                            padded as int,
                            zero,
                            *step,
                            *combine,
                            slot,
                        ),
                    is_function(*key),
                    all == self.scored_slots(
                        doc_ids@,
                        lut_u8@,
                        rotated_query@,
                        zero,
                        *step,
                        *combine,
                        *key,
                    ),
                    scored@ == all.take(start + s),
            {
                let (id, value) = docs[s];
                let score: u32 = key(value);
                scored.push(ScoredDoc { score, id });
                proof {
                    let i = start + s;
                    lemma_fundamental_div_mod_converse(i, 32, b as int, s as int);
                    assert(docs@[s as int] == (doc_ids@[i], out@[s as int]));
                    assert(scored@ =~= all.take(i + 1));
                }
            }
        }
        assert(all.take(all.len() as int) =~= all);
        top_k_by_score(&scored, k)
    }
}

/// The bytes of some records are counted record by record.
pub proof fn law_lengths_add_up(records: Seq<Vec<u8>>, n: nat)
    ensures
        total_len(records, n) == crate::arith::total(n, |i: int| records[i]@.len() as int),
    decreases n,
{
    let term = |i: int| records[i]@.len() as int;
    if n > 0 {
        law_lengths_add_up(records, (n - 1) as nat);
        crate::arith::lemma_total_step((n - 1) as nat, term);
    } else {
        crate::arith::lemma_total_step(0, term);
    }
}

/// Batches go through the records in order: the one that a document is scored
/// in holds its record at the slot that it is scored at.
pub proof fn law_slots_hold_their_record(records: Seq<Vec<u8>>, i: int)
    requires
        0 <= i < records.len(),
    ensures
        0 <= i / 32 < (records.len() + 31) / 32,
        i % 32 < rows(
            records,
            32 * (i / 32),
            batch_end(records.len() as int, 32 * (i / 32)),
        ).len() <= 32,
        rows(records, 32 * (i / 32), batch_end(records.len() as int, 32 * (i / 32)))[i % 32]
            == records[i]@,
{
}

} // verus!
