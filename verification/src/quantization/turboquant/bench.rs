//! A collection of encoded vectors, kept as they are or in transposed batches.
use vstd::prelude::*;
use vstd::arithmetic::div_mod::lemma_fundamental_div_mod_converse;
use crate::arith::{div_ceil, smaller};
use crate::functions::{is_function, is_function2, value_of};
use crate::metrics::{are_top, top_k_by_score, ScoredDoc};
use crate::quantization::turboquant::bitpack::spelled;
use crate::quantization::turboquant::distance::TurboQuantQuery;
use crate::quantization::turboquant::quantizer::{
    QjlProjectionKind, TurboQuantizer, SEED_STEP,
};
use crate::quantization::turboquant::record::{layout_fits, record_len, s1_bits};
use crate::quantization::turboquant::scoring::{
    estimate_of, score_batch, slot_score, BatchedQueryLut,
};
use crate::quantization::turboquant::transposed::{
    batch_bytes, batch_len, encode_batch, is_batch_of, is_supported_bit_width, views, BATCH_DOCS,
};

verus! {

/// How residuals are projected.
#[derive(Debug, Clone, Copy, PartialEq, Eq, Structural)]
pub enum TurboQuantVariant {
    Srht,
    GaussianQjl,
}

impl TurboQuantVariant {
    pub fn name(self) -> (r: &'static str)
        ensures
            self == TurboQuantVariant::Srht ==> r@ == "srht-qjl"@,
            self == TurboQuantVariant::GaussianQjl ==> r@ == "gaussian-qjl"@,
    {
        match self {
            TurboQuantVariant::Srht => "srht-qjl",
            TurboQuantVariant::GaussianQjl => "gaussian-qjl",
        }
    }

    /// The projection that a variant stands for.
    pub fn projection(self) -> (r: QjlProjectionKind)
        ensures
            self == TurboQuantVariant::Srht ==> r == QjlProjectionKind::Srht,
            self == TurboQuantVariant::GaussianQjl ==> r == QjlProjectionKind::Gaussian,
    {
        match self {
            TurboQuantVariant::Srht => QjlProjectionKind::Srht,
            TurboQuantVariant::GaussianQjl => QjlProjectionKind::Gaussian,
        }
    }
}

/// No vector was given.
#[derive(Debug, Clone, Copy, PartialEq, Eq, Structural)]
pub struct NoDocs;

/// Encoded vectors of one collection.
pub struct TurboQuantBench {
    pub inner: TurboQuantizer,
    pub variant: TurboQuantVariant,
    pub use_transposed: bool,
    pub records: Vec<Vec<u8>>,
    pub batches: Vec<Vec<u8>>,
    pub doc_count: usize,
}

/// The bytes of the records from `lo` to `hi`.
pub open spec fn rows(records: Seq<Vec<u8>>, lo: int, hi: int) -> Seq<Seq<u8>> {
    Seq::new((hi - lo) as nat, |i: int| records[lo + i]@)
}

/// Where the batch that starts at `lo` ends.
pub open spec fn batch_end(total: int, lo: int) -> int {
    if lo + 16 <= total {
        lo + 16
    } else {
        total
    }
}

/// The records, sixteen to a batch and in order.
pub open spec fn is_batched(
    batches: Seq<Vec<u8>>,
    records: Seq<Vec<u8>>,
    d: int,
    bit_width: u8,
) -> bool {
    &&& batches.len() == (records.len() + 15) / 16
    &&& forall|i: int|
        0 <= i < batches.len() ==> is_batch_of(
            (#[trigger] batches[i])@,
            rows(records, 16 * i, batch_end(records.len() as int, 16 * i)),
            d,
            bit_width,
        )
}

/// Total length of the first `n` byte strings.
pub open spec fn total_len(parts: Seq<Vec<u8>>, n: nat) -> nat
    decreases n,
{
    if n == 0 {
        0
    } else {
        total_len(parts, (n - 1) as nat) + parts[n - 1]@.len()
    }
}

proof fn lemma_total_len_monotone(parts: Seq<Vec<u8>>, a: nat, b: nat)
    requires
        a <= b,
    ensures
        total_len(parts, a) <= total_len(parts, b),
    decreases b,
{
    if a < b {
        lemma_total_len_monotone(parts, a, (b - 1) as nat);
    }
}

fn sum_of_lengths(parts: &Vec<Vec<u8>>) -> (total: usize)
    requires
        total_len(parts@, parts@.len()) <= usize::MAX,
    ensures
        total == total_len(parts@, parts@.len()),
{
    let mut total: usize = 0;
    for i in 0..parts.len()
        invariant
            total_len(parts@, parts@.len()) <= usize::MAX,
            total == total_len(parts@, i as nat),
    {
        proof {
            lemma_total_len_monotone(parts@, (i + 1) as nat, parts@.len());
        }
        total += parts[i].len();
    }
    total
}

impl TurboQuantBench {
    /// An empty collection for vectors of `dims` coordinates that are padded
    /// to `padded_dim`.
    pub fn new(
        dims: usize,
        padded_dim: usize,
        seed: u64,
        variant: TurboQuantVariant,
    ) -> (r: TurboQuantBench)
        requires
            dims > 0,
        ensures
            r.inner.dim == dims,
            r.inner.padded_dim == padded_dim,
            r.inner.bit_width == 5,
            r.inner.rotator_seed == seed,
            r.inner.qjl_seed == (seed + SEED_STEP) % 0x1_0000_0000_0000_0000,
            variant == TurboQuantVariant::Srht ==> r.inner.qjl_kind == QjlProjectionKind::Srht,
            variant == TurboQuantVariant::GaussianQjl ==> r.inner.qjl_kind
                == QjlProjectionKind::Gaussian,
            r.variant == variant,
            !r.use_transposed,
            r.records@.len() == 0,
            r.batches@.len() == 0,
            r.doc_count == 0,
    {
        TurboQuantBench {
            inner: TurboQuantizer::new_with_qjl_projection(
                dims,
                padded_dim,
                Some(seed),
                variant.projection(),
            ),
            variant,
            use_transposed: false,
            records: Vec::new(),
            batches: Vec::new(),
            doc_count: 0,
        }
    }

    pub fn scoring_layout(&self) -> (r: &'static str)
        ensures
            self.use_transposed ==> r@ == "transposed"@,
            !self.use_transposed ==> r@ == "doc-major"@,
    {
        if self.use_transposed {
            "transposed"
        } else {
            "doc-major"
        }
    }

    pub fn bits(&self) -> (r: u8)
        ensures
            r == self.inner.bit_width,
    {
        self.inner.bit_width
    }

    /// Asks for the transposed form; says whether it is in use from now on.
    pub fn set_transposed(&mut self, enabled: bool) -> (r: bool)
        ensures
            r == (enabled && (old(self).inner.bit_width == 4 || old(self).inner.bit_width == 5)),
            final(self).use_transposed == r,
            final(self).inner == old(self).inner,
            final(self).variant == old(self).variant,
            final(self).records == old(self).records,
            final(self).batches == old(self).batches,
            final(self).doc_count == old(self).doc_count,
    {
        self.use_transposed = enabled && is_supported_bit_width(self.inner.bit_width);
        self.use_transposed
    }

    /// Takes the encoded vectors of a collection in, in transposed form where
    /// that is in use.
    pub fn encode(&mut self, records: Vec<Vec<u8>>) -> (r: Result<(), NoDocs>)
        requires
            batch_len(old(self).inner.padded_dim as int) <= usize::MAX,
            old(self).use_transposed ==> old(self).inner.bit_width == 4 || old(self).inner.bit_width == 5,
            forall|i: int|
                0 <= i < records@.len() ==> (#[trigger] records@[i])@.len() == record_len(
                    old(self).inner.padded_dim as int,
                    old(self).inner.bit_width,
                ),
        ensures
            r is Err <==> records@.len() == 0,
            r is Err ==> *final(self) == *old(self),
            r is Ok ==> {
                &&& final(self).records@ == records@
                &&& final(self).doc_count == records@.len()
                &&& final(self).inner == old(self).inner
                &&& final(self).variant == old(self).variant
                &&& final(self).use_transposed == old(self).use_transposed
                &&& old(self).use_transposed ==> is_batched(
                    final(self).batches@,
                    records@,
                    old(self).inner.padded_dim as int,
                    old(self).inner.bit_width,
                )
                &&& !old(self).use_transposed ==> final(self).batches@.len() == 0
            },
    {
        if records.len() == 0 {
            return Err(NoDocs);
        }
        let padded: usize = self.inner.padded_dim;
        let bw: u8 = self.inner.bit_width;
        let mut batches: Vec<Vec<u8>> = Vec::new();
        if self.use_transposed {
            let total: usize = records.len();
            let mut lo: usize = 0;
            while lo < total
                invariant
                    total == records@.len(),
                    bw == 4 || bw == 5,
                    batch_len(padded as int) <= usize::MAX,
                    forall|i: int|
                        0 <= i < records@.len() ==> (#[trigger] records@[i])@.len() == record_len(
                            padded as int,
                            bw,
                        ),
                    lo <= total,
                    batches@.len() == (lo + 15) / 16,
                    lo == total || lo == 16 * batches@.len(),
                    forall|i: int|
                        0 <= i < batches@.len() ==> is_batch_of(
                            (#[trigger] batches@[i])@,
                            rows(records@, 16 * i, batch_end(total as int, 16 * i)),
                            padded as int,
                            bw,
                        ),
                decreases total - lo,
            {
                let hi: usize = if total - lo >= BATCH_DOCS {
                    lo + BATCH_DOCS
                } else {
                    total
                };
                let mut refs: Vec<&[u8]> = Vec::new();
                for i in lo..hi
                    invariant
                        lo <= i <= hi <= records@.len(),
                        refs@.len() == i - lo,
                        forall|j: int|
                            0 <= j < refs@.len() ==> (#[trigger] refs@[j])@ == records@[lo + j]@,
                {
                    refs.push(records[i].as_slice());
                }
                let mut batch: Vec<u8> = vec![0u8; batch_bytes(padded)];
                proof {
                    assert(views(refs@) =~= rows(records@, lo as int, hi as int));
                    assert forall|i: int| 0 <= i < refs@.len() implies (#[trigger] refs@[i])@.len()
                        == record_len(padded as int, bw) by {
                        assert(refs@[i]@ == records@[lo + i]@);
                    }
                }
                encode_batch(&refs, padded, bw, &mut batch);
                batches.push(batch);
                lo = hi;
            }
        }
        self.doc_count = records.len();
        self.records = records;
        self.batches = batches;
        Ok(())
    }

    /// The number of bytes of all vectors, in the form that is in use.
    pub fn total_bytes(&self) -> (r: usize)
        requires
            self.use_transposed ==> total_len(self.batches@, self.batches@.len()) <= usize::MAX,
            !self.use_transposed ==> total_len(self.records@, self.records@.len()) <= usize::MAX,
        ensures
            self.use_transposed ==> r == total_len(self.batches@, self.batches@.len()),
            !self.use_transposed ==> r == total_len(self.records@, self.records@.len()),
    {
        if self.use_transposed {
            sum_of_lengths(&self.batches)
        } else {
            sum_of_lengths(&self.records)
        }
    }

    /// Bytes per vector: the rounded-up average in transposed form, the length
    /// of a record otherwise.
    pub fn bytes_per_vector(&self) -> (r: usize)
        requires
            layout_fits(self.inner.padded_dim as int, self.inner.bit_width),
            self.use_transposed ==> total_len(self.batches@, self.batches@.len()) <= usize::MAX,
        ensures
            self.use_transposed && self.doc_count > 0 ==> r == (total_len(
                self.batches@,
                self.batches@.len(),
            ) + self.doc_count - 1) / (self.doc_count as int),
            !(self.use_transposed && self.doc_count > 0) ==> r == record_len(
                self.inner.padded_dim as int,
                self.inner.bit_width,
            ),
    {
        if self.use_transposed && self.doc_count > 0 {
            div_ceil(self.total_bytes(), self.doc_count)
        } else {
            self.inner.bytes_per_record()
        }
    }
}

/// Pairs the slots of batch `batch_idx` with the documents they belong to: slot
/// `s` is document `batch_idx * BATCH_DOCS + s`, and slots past the last
/// document are dropped.
pub fn slot_documents<T: Copy>(doc_ids: &[u64], batch_idx: usize, scores: &[T; 16]) -> (r: Vec<
    (u64, T),
>)
    requires
        batch_idx * 16 <= doc_ids@.len(),
    ensures
        r@.len() == batch_end(doc_ids@.len() as int, batch_idx * 16) - batch_idx * 16,
        forall|s: int|
            0 <= s < r@.len() ==> #[trigger] r@[s] == (doc_ids@[batch_idx * 16 + s], scores@[s]),
{
    let mut r: Vec<(u64, T)> = Vec::new();
    proof {
        assert(doc_ids@.len() == doc_ids.len());
    }
    let start: usize = batch_idx * BATCH_DOCS;
    let end: usize = if doc_ids.len() - start >= BATCH_DOCS {
        start + BATCH_DOCS
    } else {
        doc_ids.len()
    };
    for i in start..end
        invariant
            start == batch_idx * 16,
            start <= i <= end <= doc_ids@.len(),
            end - start <= 16,
            r@.len() == i - start,
            forall|s: int|
                0 <= s < r@.len() ==> #[trigger] r@[s] == (doc_ids@[start + s], scores@[s]),
    {
        r.push((doc_ids[i], scores[i - start]));
    }
    r
}

impl TurboQuantBench {
    /// Every record can be scored against the query.
    pub open spec fn records_match<T: Copy>(self, query: TurboQuantQuery<T>) -> bool {
        &&& query.wf()
        &&& forall|i: int|
            0 <= i < self.records@.len() ==> record_len(query.dim() as int, query.width()) <= (
            #[trigger] self.records@[i])@.len()
        &&& forall|i: int, x: u8, c: int|
            0 <= i < self.records@.len() && 0 <= c < query.dim() && #[trigger] spelled(
                self.records@[i]@,
                c * s1_bits(query.width()),
                s1_bits(query.width()),
                x,
            ) ==> x < query.levels()
    }

    /// Every record that has an id, with the key of its estimate.
    pub open spec fn scored_records<
        T: Copy,
        A: Fn(T, T) -> T,
        B: Fn(T, T) -> T,
        C: Fn((T, u32), T) -> T,
        K: Fn(T) -> u32,
    >(
        self,
        doc_ids: Seq<u64>,
        query: TurboQuantQuery<T>,
        zero: T,
        plus: A,
        minus: B,
        combine: C,
        key: K,
    ) -> Seq<ScoredDoc> {
        Seq::new(
            smaller(self.records@.len(), doc_ids.len()),
            |i: int|
                ScoredDoc {
                    score: value_of(
                        key,
                        estimate_of(query, self.records@[i]@, zero, plus, minus, combine),
                    ),
                    id: doc_ids[i],
                },
        )
    }

    /// The `k` best records by estimate, best first. `key` orders estimates.
    pub fn top_k<
        T: Copy,
        A: Fn(T, T) -> T,
        B: Fn(T, T) -> T,
        C: Fn((T, u32), T) -> T,
        K: Fn(T) -> u32,
    >(
        &self,
        doc_ids: &[u64],
        query: &TurboQuantQuery<T>,
        k: usize,
        zero: T,
        plus: &A,
        minus: &B,
        combine: &C,
        key: &K,
    ) -> (top: Vec<ScoredDoc>)
        requires
            self.records_match(*query),
            is_function2(*plus),
            is_function2(*minus),
            is_function2(*combine),
            is_function(*key),
        ensures
            are_top(
                self.scored_records(doc_ids@, *query, zero, *plus, *minus, *combine, *key),
                top@,
                k as nat,
            ),
    {
        let ghost all = self.scored_records(
            doc_ids@,
            *query,
            zero,
            *plus,
            *minus,
            *combine,
            *key,
        );
        let n: usize = if self.records.len() <= doc_ids.len() {
            self.records.len()
        } else {
            doc_ids.len()
        };
        let mut scored: Vec<ScoredDoc> = Vec::new();
        for i in 0..n
            invariant
                n == smaller(self.records@.len(), doc_ids@.len()),
                self.records_match(*query),
                is_function2(*plus),
                is_function2(*minus),
                is_function2(*combine),
                is_function(*key),
                all == self.scored_records(
                    doc_ids@,
                    *query,
                    zero,
                    *plus,
                    *minus,
                    *combine,
                    *key,
                ),
                scored@ == all.take(i as int),
        {
            assert(0 <= i < self.records@.len());
            let estimate: T = query.estimate_ip(&self.records[i], zero, plus, minus, combine);
            let score: u32 = key(estimate);
            scored.push(ScoredDoc { score, id: doc_ids[i] });
            assert(scored@ =~= all.take(i + 1));
        }
        assert(all.take(n as int) =~= all);
        top_k_by_score(&scored, k)
    }

    /// Every slot that has an id, with the key of its score: document `i` is in
    /// slot `i % 16` of batch `i / 16`.
    pub open spec fn scored_slots<
        T: Copy,
        A: Fn(T, T) -> T,
        B: Fn(T, T) -> T,
        C: Fn((i32, u32), T) -> T,
        K: Fn(T) -> u32,
    >(
        self,
        doc_ids: Seq<u64>,
        lut: BatchedQueryLut,
        qjl_query: Seq<T>,
        zero: T,
        plus: A,
        minus: B,
        combine: C,
        key: K,
    ) -> Seq<ScoredDoc> {
        Seq::new(
            smaller(16 * self.batches@.len(), doc_ids.len()),
            |i: int|
                ScoredDoc {
                    score: value_of(
                        key,
                        slot_score(
                            lut,
                            self.batches@[i / 16]@,
                            qjl_query,
                            zero,
                            plus,
                            minus,
                            combine,
                            i % 16,
                        ),
                    ),
                    id: doc_ids[i],
                },
        )
    }

    /// The `k` best documents by the scores of their slots, best first. `key`
    /// orders scores.
    pub fn top_k_transposed<
        T: Copy,
        A: Fn(T, T) -> T,
        B: Fn(T, T) -> T,
        C: Fn((i32, u32), T) -> T,
        K: Fn(T) -> u32,
    >(
        &self,
        doc_ids: &[u64],
        lut: &BatchedQueryLut,
        qjl_query: &[T],
        k: usize,
        zero: T,
        plus: &A,
        minus: &B,
        combine: &C,
        key: &K,
    ) -> (top: Vec<ScoredDoc>)
        requires
            lut.wf(),
            qjl_query@.len() == lut.dim(),
            forall|i: int|
                0 <= i < self.batches@.len() ==> batch_len(lut.dim() as int) <= (
                #[trigger] self.batches@[i])@.len(),
            16 * self.batches@.len() <= doc_ids@.len() + 16,
            is_function2(*plus),
            is_function2(*minus),
            is_function2(*combine),
            is_function(*key),
        ensures
            are_top(
                self.scored_slots(
                    doc_ids@,
                    *lut,
                    qjl_query@,
                    zero,
                    *plus,
                    *minus,
                    *combine,
                    *key,
                ),
                top@,
                k as nat,
            ),
    {
        let ghost all = self.scored_slots(
            doc_ids@,
            *lut,
            qjl_query@,
            zero,
            *plus,
            *minus,
            *combine,
            *key,
        );
        let mut scored: Vec<ScoredDoc> = Vec::new();
        assert(scored@ =~= all.take(0));
        for b in 0..self.batches.len()
            invariant
                lut.wf(),
                qjl_query@.len() == lut.dim(),
                forall|i: int|
                    0 <= i < self.batches@.len() ==> batch_len(lut.dim() as int) <= (
                    #[trigger] self.batches@[i])@.len(),
                16 * self.batches@.len() <= doc_ids@.len() + 16,
                is_function2(*plus),
                is_function2(*minus),
                is_function2(*combine),
                is_function(*key),
                all == self.scored_slots(
                    doc_ids@,
                    *lut,
                    qjl_query@,
                    zero,
                    *plus,
                    *minus,
                    *combine,
                    *key,
                ),
                scored@ == all.take(smaller(16 * b as nat, doc_ids@.len()) as int),
        {
            let mut out: [T; 16] = [zero; 16];
            score_batch(lut, &self.batches[b], qjl_query, zero, plus, minus, combine, &mut out);
            let docs = slot_documents(doc_ids, b, &out);
            let ghost start = 16 * b;
            assert(start <= doc_ids@.len());
            for s in 0..docs.len()
                invariant
                    b < self.batches@.len(),
                    start == 16 * b,
                    start <= doc_ids@.len(),
                    docs@.len() == batch_end(doc_ids@.len() as int, start as int) - start,
                    forall|s: int|
                        0 <= s < docs@.len() ==> #[trigger] docs@[s] == (
                            doc_ids@[b * 16 + s],
                            out@[s],
                        ),
                    forall|slot: int|
                        0 <= slot < 16 ==> #[trigger] out@[slot] == slot_score(
                            *lut,
                            self.batches@[b as int]@,
                            qjl_query@,
                            zero,
                            *plus,
                            *minus,
                            *combine,
                            slot,
                        ),
                    is_function(*key),
                    all == self.scored_slots(
                        doc_ids@,
                        *lut,
                        qjl_query@,
                        zero,
                        *plus,
                        *minus,
                        *combine,
                        *key,
                    ),
                    scored@ == all.take(start + s),
            {
                let (id, value) = docs[s];
                let score: u32 = key(value);
                scored.push(ScoredDoc { score, id });
                proof {
                    let i = start + s;
                    lemma_fundamental_div_mod_converse(i, 16, b as int, s as int);
                    assert(docs@[s as int] == (doc_ids@[i], out@[s as int]));
                    assert(scored@ =~= all.take(i + 1));
                }
            }
        }
        assert(all.take(all.len() as int) =~= all);
        top_k_by_score(&scored, k)
    }
}

/// The bytes of some records are counted record by record.
pub proof fn law_lengths_add_up(records: Seq<Vec<u8>>, n: nat)
    ensures
        total_len(records, n) == crate::arith::total(n, |i: int| records[i]@.len() as int),
    decreases n,
{
    let term = |i: int| records[i]@.len() as int;
    if n > 0 {
        law_lengths_add_up(records, (n - 1) as nat);
        crate::arith::lemma_total_step((n - 1) as nat, term);
    } else {
        crate::arith::lemma_total_step(0, term);
    }
}

/// Batches go through the records in order: the one that a document is scored
/// in holds its record at the slot that it is scored at.
pub proof fn law_slots_hold_their_record(records: Seq<Vec<u8>>, i: int)
    requires
        0 <= i < records.len(),
    ensures
        0 <= i / 16 < (records.len() + 15) / 16,
        i % 16 < rows(
            records,
            16 * (i / 16),
            batch_end(records.len() as int, 16 * (i / 16)),
        ).len() <= 16,
        rows(records, 16 * (i / 16), batch_end(records.len() as int, 16 * (i / 16)))[i % 16]
            == records[i]@,
{
}

} // verus!
