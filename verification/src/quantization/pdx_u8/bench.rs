//! The blocked code index as one of the quantizers that are compared.
use vstd::prelude::*;
use vstd::string::*;
use crate::decimal::{decimal, digits};
use crate::functions::{is_function, is_function_up_to};
use crate::metrics::{are_top, top_k_by_score, ScoredDoc};
use crate::quantization::pdx_u8::candidates::as_hits;
use crate::quantization::pdx_u8::search_pipeline::{
    chunk_capacity, chunk_len, chunk_used, holds_rows, law_found_candidates_are_slots, same_length,
    storage, FlatPdxU8SearchIndex, SearchScratch, DEFAULT_SELECTIVITY,
};

verus! {

/// A code index that is built and searched on demand.
pub struct PdxU8Bench {
    pub dims: usize,
    pub chunk_size: usize,
    pub seed: u64,
    pub index: Option<FlatPdxU8SearchIndex>,
}

/// Why code rows cannot be taken in.
#[derive(Clone, Copy, Debug, PartialEq, Eq, Structural)]
pub enum PdxBenchError {
    NoDocs,
    /// The first row has another number of codes than there are dimensions.
    WrongDims { expected: usize, got: usize },
    /// Not all rows have as many codes as the first.
    UnequalDims,
}

impl PdxBenchError {
    pub fn message(&self) -> (r: String)
        ensures
            *self == PdxBenchError::NoDocs ==> r@ == "docs must not be empty"@,
            *self == PdxBenchError::UnequalDims ==> r@ == "dimension mismatch"@,
            *self matches PdxBenchError::WrongDims { expected, got } ==> r@
                == "dimension mismatch: expected "@ + digits(expected as nat) + ", got "@ + digits(
                got as nat,
            ),
    {
        match self {
            PdxBenchError::NoDocs => "docs must not be empty".to_owned(),
            PdxBenchError::UnequalDims => "dimension mismatch".to_owned(),
            PdxBenchError::WrongDims { expected, got } => {
                let head = "dimension mismatch: expected ".to_owned();
                let expected = decimal(*expected as u64);
                let got = decimal(*got as u64);
                head.concat(expected.as_str()).concat(", got ").concat(got.as_str())
            },
        }
    }
}

/// The documents that hits of a search stand for: a smaller distance is a
/// better score.
pub open spec fn scored(doc_ids: Seq<u64>, hits: Seq<(usize, u32)>) -> Seq<ScoredDoc> {
    Seq::new(
        hits.len(),
        |i: int|
            ScoredDoc { score: (u32::MAX - hits[i].1) as u32, id: doc_ids[hits[i].0 as int] },
    )
}

/// The documents of hits.
pub fn score_hits(doc_ids: &[u64], hits: &[(usize, u32)]) -> (r: Vec<ScoredDoc>)
    requires
        forall|i: int| 0 <= i < hits@.len() ==> (#[trigger] hits@[i]).0 < doc_ids@.len(),
    ensures
        r@ == scored(doc_ids@, hits@),
{
    let mut r: Vec<ScoredDoc> = Vec::new();
    for i in 0..hits.len()
        invariant
            forall|i: int| 0 <= i < hits@.len() ==> (#[trigger] hits@[i]).0 < doc_ids@.len(),
            r@ == scored(doc_ids@, hits@.take(i as int)),
    {
        let hit = hits[i];
        r.push(ScoredDoc { score: u32::MAX - hit.1, id: doc_ids[hit.0] });
        proof {
            assert(r@ =~= scored(doc_ids@, hits@.take(i + 1)));
        }
    }
    proof {
        assert(hits@.take(hits@.len() as int) =~= hits@);
    }
    r
}

impl PdxU8Bench {
    pub open spec fn wf(self) -> bool {
        self.index matches Some(index) ==> index.wf() && index.dims == self.dims
    }

    pub fn new(dims: usize, chunk_size: usize, seed: u64) -> (r: PdxU8Bench)
        ensures
            r.wf(),
            r.dims == dims,
            r.chunk_size == chunk_size,
            r.seed == seed,
            r.index is None,
    {
        PdxU8Bench { dims, chunk_size, seed, index: None }
    }

    pub fn name(&self) -> (r: &'static str)
        ensures
            r@ == "pdx-u8-sq"@,
    {
        "pdx-u8-sq"
    }

    pub fn variant(&self) -> (r: String)
        ensures
            r@ == "global-affine+pdx-search-chunk"@ + digits(self.chunk_size as nat) + "-seed"@
                + digits(self.seed as nat),
    {
        "global-affine+pdx-search-chunk".to_owned().concat(
            decimal(self.chunk_size as u64).as_str(),
        ).concat("-seed").concat(decimal(self.seed).as_str())
    }

    pub fn scoring_layout(&self) -> (r: &'static str)
        ensures
            r@ == "pdx-cluster-u8"@,
    {
        "pdx-cluster-u8"
    }

    pub fn bits(&self) -> (r: u8)
        ensures
            r == 8,
    {
        8
    }

    /// There is one layout only.
    pub fn set_transposed(&mut self, enabled: bool) -> (r: bool)
        ensures
            !r,
            *final(self) == *old(self),
    {
        false
    }

    /// Takes in code rows; an index that was built before is replaced. Where
    /// the rows are refused, nothing changes.
    pub fn encode(&mut self, rows: &[Vec<u8>]) -> (r: Result<(), PdxBenchError>)
        requires
            old(self).wf(),
            rows@.len() <= u32::MAX,
            old(self).dims > 0,
            forall|i: int| 0 <= i < rows@.len() ==> (#[trigger] rows@[i])@.len() <= u32::MAX,
            rows@.len() > 0 ==> forall|i: int|
                0 <= i * chunk_used(old(self).chunk_size) < rows@.len() ==> chunk_capacity(
                    #[trigger] chunk_len(rows@.len(), chunk_used(old(self).chunk_size), i) as nat,
                ) * rows@[0]@.len() <= isize::MAX,
        ensures
            final(self).wf(),
            final(self).dims == old(self).dims,
            final(self).chunk_size == old(self).chunk_size,
            final(self).seed == old(self).seed,
            r is Err ==> *final(self) == *old(self),
            r == Err::<(), PdxBenchError>(PdxBenchError::NoDocs) <==> rows@.len() == 0,
            rows@.len() > 0 && rows@[0]@.len() != old(self).dims ==> r == Err::<(), PdxBenchError>(
                PdxBenchError::WrongDims {
                    expected: old(self).dims,
                    got: rows@[0]@.len() as usize,
                },
            ),
            rows@.len() > 0 && rows@[0]@.len() == old(self).dims && !same_length(rows@) ==> r
                == Err::<(), PdxBenchError>(PdxBenchError::UnequalDims),
            rows@.len() > 0 && rows@[0]@.len() == old(self).dims && same_length(rows@) ==> r is Ok
                && (final(self).index matches Some(index) && {
                &&& index.selectivity_threshold == DEFAULT_SELECTIVITY
                &&& (index.clusters@.len() - 1) * chunk_used(old(self).chunk_size) < rows@.len()
                    <= index.clusters@.len() * chunk_used(old(self).chunk_size)
                &&& forall|i: int|
                    0 <= i < index.clusters@.len() ==> holds_rows(
                        #[trigger] index.clusters@[i],
                        rows@,
                        index.dims as nat,
                        i * chunk_used(old(self).chunk_size),
                        chunk_len(rows@.len(), chunk_used(old(self).chunk_size), i),
                    )
            }),
    {
        if rows.len() == 0 {
            return Err(PdxBenchError::NoDocs);
        }
        let got: usize = rows[0].len();
        if got != self.dims {
            return Err(PdxBenchError::WrongDims { expected: self.dims, got });
        }
        match FlatPdxU8SearchIndex::encode_chunked(rows, self.chunk_size) {
            Ok(index) => {
                self.index = Some(index);
                Ok(())
            },
            Err(_) => Err(PdxBenchError::UnequalDims),
        }
    }

    /// The `k` best documents for a query, best first. The keys of the scores
    /// fall as the keys of the distances rise.
    pub fn top_k<F: Fn(u32) -> u32, G: Fn(u32, u32) -> u32>(
        &self,
        doc_ids: &[u64],
        query: &[u8],
        k: usize,
        key_of: &F,
        threshold_of: &G,
    ) -> (r: Vec<ScoredDoc>)
        requires
            self.wf(),
            self.index is Some,
            query@.len() == self.dims,
            0 < k,
            is_function(*key_of),
            is_function_up_to(*threshold_of, self.dims as int),
            forall|i: int, lane: int|
                0 <= i < self.index->0.clusters@.len() && 0 <= lane
                    < self.index->0.clusters@[i].num_embeddings
                    ==> #[trigger] self.index->0.clusters@[i].corpus_indices@[lane]
                    < doc_ids@.len(),
        ensures
            ({
                let index = self.index->0;
                let spec = index.search_spec(query@, k, *key_of, *threshold_of);
                let found = spec.visit_all(index.clusters@, index.clusters@.len());
                are_top(scored(doc_ids@, as_hits(found)), r@, k as nat)
            }),
    {
        match &self.index {
            Some(index) => {
                let mut scratch: SearchScratch = SearchScratch::default();
                let hits = index.search(query, k, key_of, threshold_of, &mut scratch);
                let ghost spec = index.search_spec(query@, k, *key_of, *threshold_of);
                let ghost found = spec.visit_all(index.clusters@, index.clusters@.len());
                proof {
                    assert forall|i: int| 0 <= i < hits@.len() implies (#[trigger] hits@[i]).0
                        < doc_ids@.len() by {
                        let x = found[i];
                        assert(found.contains(x));
                        law_found_candidates_are_slots(
                            spec,
                            index.clusters@,
                            index.clusters@.len(),
                            x,
                        );
                        let (c, lane) = choose|c: int, lane: int|
                            0 <= c < index.clusters@.len() && 0 <= lane
                                < index.clusters@[c].num_embeddings && x
                                == #[trigger] spec.candidate(index.clusters@[c], lane);
                        assert(x.corpus_idx == index.clusters@[c].corpus_indices@[lane]);
                    }
                }
                let docs = score_hits(doc_ids, &hits);
                assert(docs@ == scored(doc_ids@, as_hits(found)));
                top_k_by_score(&docs, k)
            },
            None => Vec::new(),
        }
    }

    /// Bytes of the codes of one vector.
    pub fn bytes_per_vector(&self) -> (r: usize)
        requires
            self.wf(),
        ensures
            r == self.dims,
    {
        match &self.index {
            Some(index) => index.dims as usize,
            None => self.dims,
        }
    }

    /// Bytes of all buffers.
    pub fn total_bytes(&self) -> (r: usize)
        requires
            self.index matches Some(index) ==> storage(index.clusters@, index.clusters@.len())
                <= usize::MAX,
        ensures
            r == match self.index {
                Some(index) => storage(index.clusters@, index.clusters@.len()),
                None => 0,
            },
    {
        match &self.index {
            Some(index) => index.total_storage_bytes(),
            None => 0,
        }
    }
}

/// A nearer hit has a higher score, and each keeps its document.
pub proof fn law_nearer_hits_score_higher(doc_ids: Seq<u64>, hits: Seq<(usize, u32)>, i: int, j: int)
    requires
        0 <= i < hits.len(),
        0 <= j < hits.len(),
    ensures
        scored(doc_ids, hits).len() == hits.len(),
        scored(doc_ids, hits)[i].id == doc_ids[hits[i].0 as int],
        hits[i].1 < hits[j].1 <==> scored(doc_ids, hits)[i].score > scored(doc_ids, hits)[j].score,
{
}

} // verus!
