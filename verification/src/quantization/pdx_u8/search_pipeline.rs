//! Search over clusters of 8-bit codes, visited one after another.
//!
//! While fewer than `k` candidates are known, a cluster is scanned in full and
//! its nearest slots become candidates. Afterwards a cluster is warmed up and
//! pruned against the farthest candidate, and the slots that survive are
//! offered to the candidates.
//!
//! Distances are integers. A search is given two functions: `key_of` turns a
//! distance into the key by which candidates are compared (for instance the
//! bits of a non-negative rescaled distance), and `threshold_of` gives, for the
//! key of the farthest candidate and a number of visited dimensions, the
//! distance from which on a slot is dropped.
use vstd::prelude::*;
use crate::arith::{lemma_total_step, smaller, total};
use crate::functions::{is_function, is_function_up_to, value_of, value_of2};
use crate::quantization::pdx_u8::candidates::{
    as_hits, ascending, insert_sorted, law_offers_keep_the_nearest, lemma_insert_sorted, lemma_offer, offer_all,
    precedes, CandidateHeap, KnCand,
};
use crate::quantization::pdx_u8::distance_u8::{
    dist_range, lane_at, law_distances_are_totals, lemma_dist_range_split, saturated, DistanceU32,
};
use crate::quantization::pdx_u8::layout::{
    cluster_buffer_bytes, get_pdx_dimension_split, horizontal_count, law_slots_do_not_interfere,
    lemma_full_buffer_fits, lemma_split_bounds, scatter_u8_embedding_into_cluster, slot_codes,
    slot_offset, vertical_count,
};
use crate::quantization::pdx_u8::pruning::{
    lanes_where, law_near_slots_survive, lemma_lanes_where, lemma_visited_all, prune, reset_pruning_distances, warmup, Scan,
};
use crate::quantization::pdx_u8::scan::{accumulate_horizontal, accumulate_vertical, listed};
use crate::ranking::{
    is_stable_order, key_before, law_ordering_keeps_elements, lemma_order_exists, lemma_order_of, order_of, stable_order,
};
use crate::significand::{
    lemma_round_nearest_error, round_nearest, round_significand, SINGLE_LIMIT,
};

verus! {

const MIN_MAX_CAPACITY: usize = 256;

/// The single-precision value nearest to 1.3, in units of `2^-23`.
pub const GROWTH_NUMERATOR: u128 = 10905190;

/// The single-precision value nearest to 0.8, in units of `2^-24`.
pub const DEFAULT_SELECTIVITY: u32 = 13421773;

/// A cluster of code vectors in the blocked layout. The first
/// `num_embeddings` of its `max_capacity` slots are occupied; slot `i` holds
/// the corpus vector `corpus_indices[i]`.
pub struct PdxClusterBuffer {
    pub num_embeddings: usize,
    pub max_capacity: usize,
    pub data: Vec<u8>,
    pub corpus_indices: Vec<u32>,
}

impl PdxClusterBuffer {
    /// The buffer holds `max_capacity` slots of `n` dimensions.
    pub open spec fn wf(self, n: nat) -> bool {
        &&& self.num_embeddings <= self.max_capacity
        &&& self.num_embeddings <= u32::MAX
        &&& self.num_embeddings <= self.corpus_indices@.len()
        &&& self.max_capacity * n <= self.data@.len()
    }

    /// `query` against the occupied slots.
    pub open spec fn scan(self, query: Seq<u8>, n: nat) -> Scan {
        Scan {
            query,
            data: self.data@,
            stride: self.max_capacity as int,
            dims: n,
            lanes: self.num_embeddings as nat,
        }
    }
}

/// Why code rows cannot be indexed.
#[derive(Clone, Copy, Debug, PartialEq, Eq, Structural)]
pub enum PdxEncodeError {
    NoDocs,
    DimensionMismatch,
}

impl PdxEncodeError {
    pub fn message(&self) -> (r: &'static str)
        ensures
            *self == PdxEncodeError::NoDocs ==> r@ == "docs must not be empty"@,
            *self == PdxEncodeError::DimensionMismatch ==> r@ == "dimension mismatch"@,
    {
        match self {
            PdxEncodeError::NoDocs => "docs must not be empty",
            PdxEncodeError::DimensionMismatch => "dimension mismatch",
        }
    }
}

/// Clusters of code vectors, searched in order.
pub struct FlatPdxU8SearchIndex {
    pub dims: u32,
    pub vertical_dimensions: u32,
    pub horizontal_dimensions: u32,
    pub clusters: Vec<PdxClusterBuffer>,
    /// Share of a cluster that must be prunable for the warm-up to end, in
    /// units of `2^-24`.
    pub selectivity_threshold: u32,
}

/// Buffers of a search, kept between searches to be reused.
pub struct SearchScratch {
    pub quantized_query: Vec<u8>,
    pub pruning_distances: Vec<DistanceU32>,
    pub pruning_positions: Vec<u32>,
}

impl Default for SearchScratch {
    fn default() -> (r: SearchScratch)
        ensures
            r.quantized_query@.len() == 0,
            r.pruning_distances@.len() == 0,
            r.pruning_positions@.len() == 0,
    {
        SearchScratch {
            quantized_query: Vec::new(),
            pruning_distances: Vec::new(),
            pruning_positions: Vec::new(),
        }
    }
}

/// Slots reserved for a cluster of `m` vectors: 1.3 times as many, rounded up
/// as single precision computes it, but at least 256 and at least `m`.
pub open spec fn chunk_capacity(m: nat) -> nat {
    let limit = SINGLE_LIMIT as nat;
    let product = round_nearest(
        (round_nearest(m, limit) * GROWTH_NUMERATOR) as nat,
        limit,
    );
    let grown = (product + 0x7f_ffff) / 0x80_0000;
    let at_least = if grown < 256 {
        256
    } else {
        grown
    };
    if at_least < m {
        m
    } else {
        at_least
    }
}

/// Slots that must be prunable for the warm-up of a cluster of `m` vectors to
/// end: a share of them, rounded up as single precision computes it, and at
/// least one (and at most the largest machine word).
pub open spec fn needed_to_exit(selectivity: u32, m: nat) -> nat {
    let limit = SINGLE_LIMIT as nat;
    let product = round_nearest((round_nearest(m, limit) * selectivity) as nat, limit);
    let share = (product + 0xff_ffff) / 0x100_0000;
    if share < 1 {
        1
    } else if share <= usize::MAX {
        share
    } else {
        usize::MAX as nat
    }
}

proof fn lemma_rounded_product(m: nat, c: nat)
    requires
        m <= u32::MAX,
        c <= u32::MAX,
    ensures
        round_nearest(m, SINGLE_LIMIT as nat) <= 2 * m,
        round_nearest((round_nearest(m, SINGLE_LIMIT as nat) * c) as nat, SINGLE_LIMIT as nat)
            <= 0x4_0000_0000_0000_0000,
        round_nearest(m, SINGLE_LIMIT as nat) * c <= 0x2_0000_0000_0000_0000,
{
    let limit = SINGLE_LIMIT as nat;
    lemma_round_nearest_error(m, limit);
    let a = round_nearest(m, limit);
    assert(a * c <= 0x1_ffff_fffe * 0xffff_ffff) by (nonlinear_arith)
        requires
            a <= 0x1_ffff_fffe,
            c <= 0xffff_ffff,
    ;
    assert(a * c >= 0) by (nonlinear_arith);
    lemma_round_nearest_error((a * c) as nat, limit);
}

fn capacity_for(m: usize) -> (r: usize)
    requires
        m <= u32::MAX,
        chunk_capacity(m as nat) <= usize::MAX,
    ensures
        r == chunk_capacity(m as nat),
{
    proof {
        lemma_rounded_product(m as nat, GROWTH_NUMERATOR as nat);
    }
    let rounded: u128 = round_significand(m as u128, SINGLE_LIMIT);
    let product: u128 = round_significand(rounded * GROWTH_NUMERATOR, SINGLE_LIMIT);
    let grown: u128 = (product + 0x7f_ffff) / 0x80_0000;
    let at_least: u128 = if grown < MIN_MAX_CAPACITY as u128 {
        MIN_MAX_CAPACITY as u128
    } else {
        grown
    };
    if at_least < m as u128 {
        m
    } else {
        at_least as usize
    }
}

fn exit_count(selectivity: u32, m: usize) -> (r: usize)
    requires
        m <= u32::MAX,
    ensures
        r > 0,
        r == needed_to_exit(selectivity, m as nat),
{
    proof {
        lemma_rounded_product(m as nat, selectivity as nat);
    }
    let rounded: u128 = round_significand(m as u128, SINGLE_LIMIT);
    let product: u128 = round_significand(rounded * (selectivity as u128), SINGLE_LIMIT);
    let share: u128 = (product + 0xff_ffff) / 0x100_0000;
    if share < 1 {
        1
    } else if share <= usize::MAX as u128 {
        share as usize
    } else {
        usize::MAX
    }
}

/// The candidates after each of `cands` has joined.
pub open spec fn push_all(s: Seq<KnCand>, cands: Seq<KnCand>) -> Seq<KnCand>
    decreases cands.len(),
{
    if cands.len() == 0 {
        s
    } else {
        insert_sorted(push_all(s, cands.drop_last()), cands.last())
    }
}

/// What a search is made with: the query codes, the number of dimensions, the
/// number of candidates, the selectivity, and the two functions.
pub struct SearchSpec {
    pub query: Seq<u8>,
    pub dims: nat,
    pub k: usize,
    pub selectivity: u32,
    pub key: spec_fn(u32) -> u32,
    pub thr: spec_fn(u32, u32) -> u32,
}

impl SearchSpec {
    /// Slot `lane` of `cluster` as a candidate.
    pub open spec fn candidate(self, cluster: PdxClusterBuffer, lane: int) -> KnCand {
        KnCand {
            dist: (self.key)(cluster.scan(self.query, self.dims).distance(lane)),
            corpus_idx: cluster.corpus_indices@[lane],
        }
    }

    /// The distances of the occupied slots.
    pub open spec fn distances(self, cluster: PdxClusterBuffer) -> Seq<u64> {
        Seq::new(
            cluster.num_embeddings as nat,
            |l: int| cluster.scan(self.query, self.dims).distance(l) as u64,
        )
    }

    /// How many slots a full scan takes up when `known` candidates are known.
    pub open spec fn start_count(self, known: nat, lanes: nat) -> nat {
        let k = self.k as int;
        if k <= known {
            0
        } else if k - known <= lanes {
            (k - known) as nat
        } else {
            lanes
        }
    }

    /// Keys are ordered as the distances of a cluster are, and its corpus
    /// indices rise.
    pub open spec fn ranks_by_distance(self, cluster: PdxClusterBuffer) -> bool {
        &&& forall|a: int, b: int|
            0 <= a < b < cluster.num_embeddings ==> #[trigger] cluster.corpus_indices@[a]
                < #[trigger] cluster.corpus_indices@[b]
        &&& forall|a: int, b: int|
            0 <= a < cluster.num_embeddings && 0 <= b < cluster.num_embeddings
                && #[trigger] self.distances(cluster)[a] < #[trigger] self.distances(cluster)[b]
                ==> self.candidate(cluster, a).dist < self.candidate(cluster, b).dist
    }

    /// The nearest slots of a cluster, by distance and then by slot.
    pub open spec fn nearest(self, cluster: PdxClusterBuffer, count: nat) -> Seq<KnCand> {
        Seq::new(
            count,
            |i: int| self.candidate(cluster, order_of(self.distances(cluster))[i] as int),
        )
    }

    /// The slots of a cluster that survive pruning against `worst`.
    pub open spec fn survivors(self, cluster: PdxClusterBuffer, worst: u32) -> Seq<u32> {
        let s = cluster.scan(self.query, self.dims);
        let needed = needed_to_exit(self.selectivity, s.lanes);
        let w = s.warm_from(0, 0, needed, worst, self.thr);
        lanes_where(s.lanes, |l: int| s.survives(l, w, worst, self.thr))
    }

    pub open spec fn survivor_candidates(self, cluster: PdxClusterBuffer, worst: u32) -> Seq<
        KnCand,
    > {
        let list = self.survivors(cluster, worst);
        Seq::new(list.len(), |i: int| self.candidate(cluster, list[i] as int))
    }

    /// The candidates after `cluster` has been visited.
    pub open spec fn visit(self, known: Seq<KnCand>, cluster: PdxClusterBuffer) -> Seq<KnCand> {
        if cluster.num_embeddings == 0 {
            known
        } else if known.len() < self.k {
            let count = self.start_count(known.len(), cluster.num_embeddings as nat);
            push_all(known, self.nearest(cluster, count))
        } else {
            offer_all(
                known,
                self.k as nat,
                self.survivor_candidates(cluster, known.last().dist),
            )
        }
    }

    /// The candidates after the first `n` clusters have been visited.
    pub open spec fn visit_all(self, clusters: Seq<PdxClusterBuffer>, n: nat) -> Seq<KnCand>
        decreases n,
    {
        if n == 0 {
            Seq::empty()
        } else {
            self.visit(self.visit_all(clusters, (n - 1) as nat), clusters[n - 1])
        }
    }
}

pub proof fn lemma_push_all(s: Seq<KnCand>, cands: Seq<KnCand>)
    requires
        ascending(s),
    ensures
        ascending(push_all(s, cands)),
        push_all(s, cands).len() == s.len() + cands.len(),
        push_all(s, cands).to_multiset() == s.to_multiset().add(cands.to_multiset()),
        forall|x: KnCand| #[trigger]
            push_all(s, cands).contains(x) <==> s.contains(x) || cands.contains(x),
    decreases cands.len(),
{
    broadcast use vstd::seq_lib::group_to_multiset_ensures;

    if cands.len() == 0 {
        assert(cands =~= Seq::empty());
        assert(s.to_multiset().add(cands.to_multiset()) =~= s.to_multiset());
    } else {
        let t = cands.drop_last();
        lemma_push_all(s, t);
        let u = push_all(s, t);
        lemma_insert_sorted(u, cands.last());
        assert(cands =~= t.push(cands.last()));
        assert(cands.to_multiset() == t.to_multiset().insert(cands.last()));
        assert(push_all(s, cands).to_multiset() =~= s.to_multiset().add(cands.to_multiset()));
        assert forall|x: KnCand| #[trigger] push_all(s, cands).contains(x) <==> s.contains(x)
            || cands.contains(x) by {
            assert(cands.contains(x) <==> t.contains(x) || x == cands.last()) by {
                if t.contains(x) {
                    let i = choose|i: int| 0 <= i < t.len() && t[i] == x;
                    assert(cands[i] == x);
                }
                if cands.contains(x) {
                    let i = choose|i: int| 0 <= i < cands.len() && cands[i] == x;
                    if i < t.len() {
                        assert(t[i] == x);
                    }
                }
                if x == cands.last() {
                    assert(cands[cands.len() - 1] == x);
                }
            }
            assert(u.contains(x) <==> s.contains(x) || t.contains(x));
        }
    }
}

pub proof fn lemma_offer_all(s: Seq<KnCand>, k: nat, cands: Seq<KnCand>)
    requires
        ascending(s),
        s.len() <= k,
    ensures
        ascending(offer_all(s, k, cands)),
        s.len() <= offer_all(s, k, cands).len() <= k,
        s.len() == k ==> offer_all(s, k, cands).len() == k,
        forall|x: KnCand| #[trigger]
            offer_all(s, k, cands).contains(x) ==> s.contains(x) || cands.contains(x),
    decreases cands.len(),
{
    if cands.len() > 0 {
        let t = cands.drop_last();
        lemma_offer_all(s, k, t);
        lemma_offer(offer_all(s, k, t), k, cands.last());
        assert forall|x: KnCand| #[trigger] offer_all(s, k, cands).contains(x) implies s.contains(x)
            || cands.contains(x) by {
            if x == cands.last() {
                assert(cands[cands.len() - 1] == x);
            } else if !s.contains(x) {
                assert(offer_all(s, k, t).contains(x));
                let i = choose|i: int| 0 <= i < t.len() && t[i] == x;
                assert(cands[i] == x);
            }
        }
    }
}

/// Accumulates the full distance of every occupied slot.
fn full_scan(
    query: &[u8],
    cluster: &PdxClusterBuffer,
    num_dimensions: u32,
    vertical: usize,
    pruning_distances: &mut [DistanceU32],
)
    requires
        num_dimensions > 0,
        query@.len() == num_dimensions,
        cluster.wf(num_dimensions as nat),
        vertical == vertical_count(num_dimensions as nat),
        cluster.num_embeddings <= old(pruning_distances)@.len(),
    ensures
        final(pruning_distances)@.len() == old(pruning_distances)@.len(),
        forall|l: int|
            0 <= l < cluster.num_embeddings ==> #[trigger] final(pruning_distances)@[l]
                == cluster.scan(query@, num_dimensions as nat).distance(l),
{
    let ghost n = num_dimensions as nat;
    let ghost s = cluster.scan(query@, n);
    let ghost len = pruning_distances@.len();
    let lanes: usize = cluster.num_embeddings;
    proof {
        lemma_split_bounds(n);
    }
    reset_pruning_distances(pruning_distances, lanes);
    let ghost zeroed = pruning_distances@;
    proof {
        assert forall|i: int, j: int| 0 <= i < j < lanes implies #[trigger] lane_at(None, i)
            != #[trigger] lane_at(None, j) by {}
    }
    accumulate_vertical(
        query,
        &cluster.data,
        None,
        lanes,
        cluster.max_capacity,
        num_dimensions,
        0,
        vertical,
        pruning_distances,
    );
    proof {
        assert forall|l: int| 0 <= l < lanes implies #[trigger] pruning_distances@[l] == s.visited(
            l,
            vertical as int,
            0,
        ) by {
            assert(lane_at(None, l) == l);
            assert(listed(None, lanes as int, l));
            assert(zeroed[l] == 0);
        }
    }
    let horizontal: usize = num_dimensions as usize - vertical;
    let mut h: usize = 0;
    while h < horizontal
        invariant
            n == num_dimensions,
            s == cluster.scan(query@, n),
            num_dimensions > 0,
            query@.len() == num_dimensions,
            cluster.wf(num_dimensions as nat),
            vertical == vertical_count(num_dimensions as nat),
            horizontal == horizontal_count(num_dimensions as nat),
            horizontal % 64 == 0,
            h % 64 == 0,
            h <= horizontal,
            lanes == cluster.num_embeddings,
            lanes <= len,
            pruning_distances@.len() == len,
            forall|l: int|
                0 <= l < lanes ==> #[trigger] pruning_distances@[l] == s.visited(
                    l,
                    vertical as int,
                    h as int,
                ),
        decreases horizontal - h,
    {
        let ghost before = pruning_distances@;
        proof {
            assert forall|i: int, j: int| 0 <= i < j < lanes implies #[trigger] lane_at(None, i)
                != #[trigger] lane_at(None, j) by {}
        }
        accumulate_horizontal(
            query,
            &cluster.data,
            None,
            lanes,
            cluster.max_capacity,
            num_dimensions,
            vertical,
            h,
            pruning_distances,
        );
        proof {
            assert forall|l: int| 0 <= l < lanes implies #[trigger] pruning_distances@[l]
                == s.visited(l, vertical as int, h + 64) by {
                assert(lane_at(None, l) == l);
                assert(listed(None, lanes as int, l));
                assert(before[l] == s.visited(l, vertical as int, h as int));
                lemma_dist_range_split(
                    s.query,
                    s.codes(l),
                    vertical as int,
                    vertical + h,
                    vertical + h + 64,
                );
            }
        }
        h += 64;
    }
    proof {
        assert forall|l: int| 0 <= l < lanes implies #[trigger] pruning_distances@[l] == s.distance(
            l,
        ) by {
            lemma_visited_all(s, l);
        }
    }
}

/// Scans a cluster in full and takes its nearest slots up as candidates.
fn start_cluster<F: Fn(u32) -> u32>(
    query: &[u8],
    cluster: &PdxClusterBuffer,
    num_dimensions: u32,
    vertical: usize,
    k: usize,
    key_of: &F,
    pruning_distances: &mut [DistanceU32],
    heap: &mut CandidateHeap,
    Ghost(spec): Ghost<SearchSpec>,
)
    requires
        num_dimensions > 0,
        query@.len() == num_dimensions,
        cluster.wf(num_dimensions as nat),
        vertical == vertical_count(num_dimensions as nat),
        cluster.num_embeddings <= old(pruning_distances)@.len(),
        is_function(*key_of),
        old(heap).wf(),
        spec.query == query@,
        spec.dims == num_dimensions,
        spec.k == k,
        spec.key == (|x: u32| value_of(*key_of, x)),
    ensures
        final(pruning_distances)@.len() == old(pruning_distances)@.len(),
        final(heap).wf(),
        final(heap)@ == push_all(
            old(heap)@,
            spec.nearest(
                *cluster,
                spec.start_count(old(heap)@.len(), cluster.num_embeddings as nat),
            ),
        ),
{
    let ghost n = num_dimensions as nat;
    let ghost s = cluster.scan(query@, n);
    let lanes: usize = cluster.num_embeddings;
    full_scan(query, cluster, num_dimensions, vertical, pruning_distances);
    let known: usize = heap.len();
    let count: usize = if k <= known {
        0
    } else if k - known <= lanes {
        k - known
    } else {
        lanes
    };
    let mut keys: Vec<u64> = Vec::new();
    for l in 0..lanes
        invariant
            s == cluster.scan(query@, n),
            lanes == cluster.num_embeddings,
            lanes <= pruning_distances@.len(),
            forall|l: int| 0 <= l < lanes ==> #[trigger] pruning_distances@[l] == s.distance(l),
            keys@.len() == l,
            forall|j: int| 0 <= j < l ==> #[trigger] keys@[j] == s.distance(j),
    {
        keys.push(pruning_distances[l] as u64);
    }
    let order = stable_order(keys.as_slice());
    let ghost first = heap@;
    let ghost list = spec.nearest(*cluster, count as nat);
    proof {
        assert(keys@ =~= spec.distances(*cluster));
        lemma_order_of(keys@, order@);
        assert(list.take(0) =~= Seq::<KnCand>::empty());
    }
    for i in 0..count
        invariant
            s == cluster.scan(query@, n),
            n == num_dimensions,
            cluster.wf(n),
            spec.query == query@,
            spec.dims == n,
            spec.key == (|x: u32| value_of(*key_of, x)),
            is_function(*key_of),
            lanes == cluster.num_embeddings,
            count <= lanes,
            lanes <= pruning_distances@.len(),
            forall|l: int| 0 <= l < lanes ==> #[trigger] pruning_distances@[l] == s.distance(l),
            order@ == order_of(spec.distances(*cluster)),
            is_stable_order(spec.distances(*cluster), order@),
            list == spec.nearest(*cluster, count as nat),
            heap.wf(),
            heap@ == push_all(first, list.take(i as int)),
    {
        let idx: usize = order[i];
        let d: u32 = pruning_distances[idx];
        let dist: u32 = key_of(d);
        let c = KnCand { dist, corpus_idx: cluster.corpus_indices[idx] };
        proof {
            assert(dist == value_of(*key_of, d));
            assert(c == list[i as int]);
            assert(list.take(i + 1).drop_last() =~= list.take(i as int));
            assert(list.take(i + 1).last() == c);
        }
        heap.push(c);
    }
    proof {
        assert(list.take(count as int) =~= list);
    }
}

/// Offers the surviving slots of a cluster to the candidates.
fn merge_into_heap<F: Fn(u32) -> u32>(
    cluster: &PdxClusterBuffer,
    n_vectors_not_pruned: usize,
    k: usize,
    pruning_positions: &[u32],
    pruning_distances: &[DistanceU32],
    key_of: &F,
    heap: &mut CandidateHeap,
    Ghost(spec): Ghost<SearchSpec>,
    Ghost(worst): Ghost<u32>,
)
    requires
        cluster.wf(spec.dims),
        is_function(*key_of),
        spec.key == (|x: u32| value_of(*key_of, x)),
        n_vectors_not_pruned <= pruning_positions@.len(),
        cluster.num_embeddings <= pruning_distances@.len(),
        pruning_positions@.take(n_vectors_not_pruned as int) == spec.survivors(*cluster, worst),
        forall|i: int|
            0 <= i < n_vectors_not_pruned ==> #[trigger] pruning_positions@[i]
                < cluster.num_embeddings && pruning_distances@[pruning_positions@[i] as int]
                == cluster.scan(spec.query, spec.dims).distance(pruning_positions@[i] as int),
        old(heap).wf(),
    ensures
        final(heap).wf(),
        final(heap)@ == offer_all(
            old(heap)@,
            k as nat,
            spec.survivor_candidates(*cluster, worst),
        ),
{
    let ghost first = heap@;
    let ghost list = spec.survivor_candidates(*cluster, worst);
    proof {
        assert(list.take(0) =~= Seq::<KnCand>::empty());
    }
    for i in 0..n_vectors_not_pruned
        invariant
            cluster.wf(spec.dims),
            is_function(*key_of),
            spec.key == (|x: u32| value_of(*key_of, x)),
            n_vectors_not_pruned <= pruning_positions@.len(),
            cluster.num_embeddings <= pruning_distances@.len(),
            pruning_positions@.take(n_vectors_not_pruned as int) == spec.survivors(
                *cluster,
                worst,
            ),
            forall|i: int|
                0 <= i < n_vectors_not_pruned ==> #[trigger] pruning_positions@[i]
                    < cluster.num_embeddings && pruning_distances@[pruning_positions@[i] as int]
                    == cluster.scan(spec.query, spec.dims).distance(pruning_positions@[i] as int),
            list == spec.survivor_candidates(*cluster, worst),
            list.len() == n_vectors_not_pruned,
            heap.wf(),
            heap@ == offer_all(first, k as nat, list.take(i as int)),
    {
        let idx: usize = pruning_positions[i] as usize;
        let d: u32 = pruning_distances[idx];
        let dist: u32 = key_of(d);
        let c = KnCand { dist, corpus_idx: cluster.corpus_indices[idx] };
        proof {
            assert(dist == value_of(*key_of, d));
            assert(pruning_positions@.take(n_vectors_not_pruned as int)[i as int]
                == pruning_positions@[i as int]);
            assert(c == list[i as int]);
            assert(list.take(i + 1).drop_last() =~= list.take(i as int));
            assert(list.take(i + 1).last() == c);
        }
        heap.maybe_push(k, c);
    }
    proof {
        assert(list.take(n_vectors_not_pruned as int) =~= list);
    }
}

/// The largest capacity among the first `n` clusters, and at least zero.
pub open spec fn largest_capacity(clusters: Seq<PdxClusterBuffer>, n: nat) -> nat
    decreases n,
{
    if n == 0 {
        0
    } else {
        let rest = largest_capacity(clusters, (n - 1) as nat);
        if clusters[n - 1].max_capacity > rest {
            clusters[n - 1].max_capacity as nat
        } else {
            rest
        }
    }
}

/// Bytes of the buffers of the first `n` clusters.
pub open spec fn storage(clusters: Seq<PdxClusterBuffer>, n: nat) -> nat
    decreases n,
{
    if n == 0 {
        0
    } else {
        storage(clusters, (n - 1) as nat) + clusters[n - 1].data@.len()
    }
}

proof fn lemma_storage_monotone(clusters: Seq<PdxClusterBuffer>, a: nat, b: nat)
    requires
        a <= b,
    ensures
        storage(clusters, a) <= storage(clusters, b),
    decreases b,
{
    if a < b {
        lemma_storage_monotone(clusters, a, (b - 1) as nat);
    }
}

proof fn lemma_largest_capacity(clusters: Seq<PdxClusterBuffer>, n: nat, i: int)
    requires
        0 <= i < n,
    ensures
        clusters[i].max_capacity <= largest_capacity(clusters, n),
    decreases n,
{
    if i < n - 1 {
        lemma_largest_capacity(clusters, (n - 1) as nat, i);
    }
}

/// Vectors in the `i`-th chunk when `total` vectors are cut every `chunk`.
pub open spec fn chunk_len(total: nat, chunk: nat, i: int) -> int {
    if (i + 1) * chunk <= total {
        chunk as int
    } else {
        total - i * chunk
    }
}

/// The chunk size that is used where `chunk_size` is asked for.
pub open spec fn chunk_used(chunk_size: usize) -> nat {
    if chunk_size == 0 {
        1
    } else {
        chunk_size as nat
    }
}

/// `cluster` holds the rows `from..from + m`, in order, in zeroed buffers.
pub open spec fn holds_rows(
    cluster: PdxClusterBuffer,
    rows: Seq<Vec<u8>>,
    n: nat,
    from: int,
    m: int,
) -> bool {
    &&& cluster.num_embeddings == m
    &&& cluster.max_capacity == chunk_capacity(m as nat)
    &&& cluster.data@.len() == cluster.max_capacity * n
    &&& cluster.corpus_indices@ == Seq::new(m as nat, |j: int| (from + j) as u32)
    &&& forall|j: int|
        0 <= j < m ==> #[trigger] slot_codes(cluster.data@, cluster.max_capacity as int, j, n)
            == rows[from + j]@
    &&& forall|j: int|
        m <= j < cluster.max_capacity ==> #[trigger] slot_codes(
            cluster.data@,
            cluster.max_capacity as int,
            j,
            n,
        ) == Seq::new(n, |d: int| 0u8)
}

/// Every row has as many codes as the first.
pub open spec fn same_length(rows: Seq<Vec<u8>>) -> bool {
    forall|i: int| 0 <= i < rows.len() ==> (#[trigger] rows[i])@.len() == rows[0]@.len()
}

/// Packs the rows `from..from + m` into one cluster.
fn pack_cluster(rows: &[Vec<u8>], dims: u32, from: usize, m: usize) -> (cluster: PdxClusterBuffer)
    requires
        dims > 0,
        m > 0,
        from + m <= rows@.len(),
        rows@.len() <= u32::MAX,
        forall|i: int| 0 <= i < rows@.len() ==> (#[trigger] rows@[i])@.len() == dims,
        chunk_capacity(m as nat) * dims <= isize::MAX,
    ensures
        holds_rows(cluster, rows@, dims as nat, from as int, m as int),
        cluster.wf(dims as nat),
{
    let ghost n = dims as nat;
    proof {
        let c = chunk_capacity(m as nat);
        assert(c <= c * n) by (nonlinear_arith)
            requires
                n >= 1,
                c >= 0,
        ;
    }
    let stride: usize = capacity_for(m);
    let mut data: Vec<u8> = vec![0u8; cluster_buffer_bytes(stride, dims)];
    let ghost len = data@.len();
    let mut corpus_indices: Vec<u32> = Vec::new();
    proof {
        assert forall|j: int| 0 <= j < stride implies #[trigger] slot_codes(
            data@,
            stride as int,
            j,
            n,
        ) == Seq::new(n, |d: int| 0u8) by {
            lemma_split_bounds(n);
            lemma_full_buffer_fits(len as int, stride as int, j, n);
            assert forall|d: int| 0 <= d < n implies data@[#[trigger] slot_offset(
                vertical_count(n),
                stride as int,
                j,
                d,
            )] == 0 by {
                crate::quantization::pdx_u8::layout::lemma_slot_offset_bound(
                    vertical_count(n),
                    n as int,
                    stride as int,
                    j,
                    d,
                );
            }
            assert(slot_codes(data@, stride as int, j, n) =~= Seq::new(n, |d: int| 0u8));
        }
    }
    for i in 0..m
        invariant
            dims > 0,
            n == dims,
            m <= stride,
            from + m <= rows@.len(),
            rows@.len() <= u32::MAX,
            forall|i: int| 0 <= i < rows@.len() ==> (#[trigger] rows@[i])@.len() == dims,
            len == stride * dims,
            data@.len() == len,
            corpus_indices@ == Seq::new(i as nat, |j: int| (from + j) as u32),
            forall|j: int|
                0 <= j < i ==> #[trigger] slot_codes(data@, stride as int, j, n) == rows@[from
                    + j]@,
            forall|j: int|
                i <= j < stride ==> #[trigger] slot_codes(data@, stride as int, j, n) == Seq::new(
                    n,
                    |d: int| 0u8,
                ),
    {
        let ghost before = data@;
        proof {
            lemma_full_buffer_fits(len as int, stride as int, i as int, n);
        }
        scatter_u8_embedding_into_cluster(&mut data, stride, i, rows[from + i].as_slice(), dims);
        proof {
            assert forall|j: int| 0 <= j < stride && j != i implies #[trigger] slot_codes(
                data@,
                stride as int,
                j,
                n,
            ) == slot_codes(before, stride as int, j, n) by {
                lemma_full_buffer_fits(len as int, stride as int, j, n);
                law_slots_do_not_interfere(before, data@, stride as int, i as int, j, n);
            }
        }
        corpus_indices.push((from + i) as u32);
        proof {
            assert(corpus_indices@ =~= Seq::new((i + 1) as nat, |j: int| (from + j) as u32));
        }
    }
    PdxClusterBuffer { num_embeddings: m, max_capacity: stride, data, corpus_indices }
}

impl FlatPdxU8SearchIndex {
    pub open spec fn wf(self) -> bool {
        &&& self.dims > 0
        &&& self.vertical_dimensions == vertical_count(self.dims as nat)
        &&& self.horizontal_dimensions == horizontal_count(self.dims as nat)
        &&& forall|i: int|
            0 <= i < self.clusters@.len() ==> (#[trigger] self.clusters@[i]).wf(self.dims as nat)
    }

    /// What a search of this index is made with.
    pub open spec fn search_spec<F: Fn(u32) -> u32, G: Fn(u32, u32) -> u32>(
        self,
        query: Seq<u8>,
        k: usize,
        key_of: F,
        threshold_of: G,
    ) -> SearchSpec {
        SearchSpec {
            query,
            dims: self.dims as nat,
            k,
            selectivity: self.selectivity_threshold,
            key: |x: u32| value_of(key_of, x),
            thr: |x: u32, y: u32| value_of2(threshold_of, x, y),
        }
    }

    pub fn max_cluster_capacity(&self) -> (r: usize)
        ensures
            r == largest_capacity(self.clusters@, self.clusters@.len()),
    {
        let mut best: usize = 0;
        for i in 0..self.clusters.len()
            invariant
                best == largest_capacity(self.clusters@, i as nat),
        {
            if self.clusters[i].max_capacity > best {
                best = self.clusters[i].max_capacity;
            }
        }
        best
    }

    pub fn total_storage_bytes(&self) -> (r: usize)
        requires
            storage(self.clusters@, self.clusters@.len()) <= usize::MAX,
        ensures
            r == storage(self.clusters@, self.clusters@.len()),
    {
        let mut total: usize = 0;
        for i in 0..self.clusters.len()
            invariant
                storage(self.clusters@, self.clusters@.len()) <= usize::MAX,
                total == storage(self.clusters@, i as nat),
        {
            proof {
                lemma_storage_monotone(self.clusters@, (i + 1) as nat, self.clusters@.len());
            }
            total += self.clusters[i].data.len();
        }
        total
    }

    /// Packs code rows into clusters of at most `chunk_size` rows each, in
    /// order.
    pub fn encode_chunked(rows: &[Vec<u8>], chunk_size: usize) -> (r: Result<
        FlatPdxU8SearchIndex,
        PdxEncodeError,
    >)
        requires
            rows@.len() <= u32::MAX,
            forall|i: int| 0 <= i < rows@.len() ==> (#[trigger] rows@[i])@.len() <= u32::MAX,
            rows@.len() > 0 && same_length(rows@) ==> rows@[0]@.len() > 0,
            rows@.len() > 0 ==> forall|i: int|
                0 <= i * chunk_used(chunk_size) < rows@.len() ==> chunk_capacity(
                    #[trigger] chunk_len(rows@.len(), chunk_used(chunk_size), i) as nat,
                ) * rows@[0]@.len() <= isize::MAX,
        ensures
            rows@.len() == 0 ==> r == Err::<FlatPdxU8SearchIndex, PdxEncodeError>(
                PdxEncodeError::NoDocs,
            ),
            rows@.len() > 0 && !same_length(rows@) ==> r == Err::<
                FlatPdxU8SearchIndex,
                PdxEncodeError,
            >(PdxEncodeError::DimensionMismatch),
            rows@.len() > 0 && same_length(rows@) ==> (r matches Ok(index) && {
                &&& index.wf()
                &&& index.dims == rows@[0]@.len()
                &&& index.selectivity_threshold == DEFAULT_SELECTIVITY
                &&& (index.clusters@.len() - 1) * chunk_used(chunk_size) < rows@.len()
                    <= index.clusters@.len() * chunk_used(chunk_size)
                &&& forall|i: int|
                    0 <= i < index.clusters@.len() ==> holds_rows(
                        #[trigger] index.clusters@[i],
                        rows@,
                        index.dims as nat,
                        i * chunk_used(chunk_size),
                        chunk_len(rows@.len(), chunk_used(chunk_size), i),
                    )
            }),
    {
        if rows.len() == 0 {
            return Err(PdxEncodeError::NoDocs);
        }
        let dims: u32 = rows[0].len() as u32;
        for i in 0..rows.len()
            invariant
                rows@.len() > 0,
                dims == rows@[0]@.len(),
                forall|j: int| 0 <= j < rows@.len() ==> (#[trigger] rows@[j])@.len() <= u32::MAX,
                forall|j: int| 0 <= j < i ==> (#[trigger] rows@[j])@.len() == dims,
        {
            if rows[i].len() as u32 != dims {
                assert(rows@[i as int]@.len() != rows@[0]@.len());
                return Err(PdxEncodeError::DimensionMismatch);
            }
        }
        assert(same_length(rows@));
        let split = get_pdx_dimension_split(dims);
        let chunk: usize = if chunk_size == 0 {
            1
        } else {
            chunk_size
        };
        let mut clusters: Vec<PdxClusterBuffer> = Vec::new();
        let mut from: usize = 0;
        let ghost total = rows@.len();
        while from < rows.len()
            invariant
                dims > 0,
                total == rows@.len(),
                total <= u32::MAX,
                chunk == chunk_used(chunk_size),
                chunk > 0,
                dims == rows@[0]@.len(),
                forall|i: int| 0 <= i < total ==> (#[trigger] rows@[i])@.len() == dims,
                forall|i: int|
                    0 <= i * chunk < total ==> chunk_capacity(
                        #[trigger] chunk_len(total, chunk as nat, i) as nat,
                    ) * dims <= isize::MAX,
                from <= total,
                total > 0,
                from == if clusters@.len() * chunk <= total {
                    clusters@.len() * chunk
                } else {
                    total as int
                },
                clusters@.len() > 0 ==> (clusters@.len() - 1) * chunk < total,
                forall|i: int|
                    0 <= i < clusters@.len() ==> (#[trigger] clusters@[i]).wf(dims as nat)
                        && holds_rows(
                        clusters@[i],
                        rows@,
                        dims as nat,
                        i * chunk,
                        chunk_len(total, chunk as nat, i),
                    ),
            decreases total - from,
        {
            let left: usize = rows.len() - from;
            let m: usize = if chunk <= left {
                chunk
            } else {
                left
            };
            proof {
                let i = clusters@.len() as int;
                assert((i + 1) * chunk == i * chunk + chunk) by (nonlinear_arith);
                assert(from == i * chunk);
                assert(m == chunk_len(total, chunk as nat, i));
                assert(chunk_capacity(chunk_len(total, chunk as nat, i) as nat) * dims
                    <= isize::MAX);
            }
            clusters.push(pack_cluster(rows, dims, from, m));
            from += m;
        }
        Ok(
            FlatPdxU8SearchIndex {
                dims,
                vertical_dimensions: split.vertical_dimensions,
                horizontal_dimensions: split.horizontal_dimensions,
                clusters,
                selectivity_threshold: DEFAULT_SELECTIVITY,
            },
        )
    }

    /// The candidates that a search for the `k` nearest corpus vectors ends
    /// with, as pairs of corpus index and key: nearest first, those of one key
    /// by rising corpus index.
    pub fn search<F: Fn(u32) -> u32, G: Fn(u32, u32) -> u32>(
        &self,
        query: &[u8],
        k: usize,
        key_of: &F,
        threshold_of: &G,
        scratch: &mut SearchScratch,
    ) -> (r: Vec<(usize, u32)>)
        requires
            self.wf(),
            query@.len() == self.dims,
            k > 0 || (forall|i: int|
                0 <= i < self.clusters@.len() ==> (#[trigger] self.clusters@[i]).num_embeddings
                    == 0),
            is_function(*key_of),
            is_function_up_to(*threshold_of, self.dims as int),
        ensures
            ({
                let spec = self.search_spec(query@, k, *key_of, *threshold_of);
                let found = spec.visit_all(self.clusters@, self.clusters@.len());
                r@ == as_hits(found) && ascending(found)
            }),
            k > 0 && self.clusters@.len() == 1 ==> {
                let spec = self.search_spec(query@, k, *key_of, *threshold_of);
                let c = self.clusters@[0];
                spec.ranks_by_distance(c) ==> {
                    &&& is_stable_order(spec.distances(c), order_of(spec.distances(c)))
                    &&& r@ == as_hits(
                        spec.nearest(c, smaller(c.num_embeddings as nat, k as nat)),
                    )
                }
            },
            final(scratch).quantized_query@ == query@,
            final(scratch).pruning_distances@.len() == if largest_capacity(
                self.clusters@,
                self.clusters@.len(),
            ) == 0 {
                1
            } else {
                largest_capacity(self.clusters@, self.clusters@.len())
            },
            final(scratch).pruning_positions@.len() == final(scratch).pruning_distances@.len(),
    {
        let ghost spec = self.search_spec(query@, k, *key_of, *threshold_of);
        let ghost n = self.dims as nat;
        let vertical: usize = self.vertical_dimensions as usize;
        let cap: usize = self.max_cluster_capacity();
        let max_cap: usize = if cap == 0 {
            1
        } else {
            cap
        };
        scratch.quantized_query.clear();
        scratch.quantized_query.extend_from_slice(query);
        scratch.pruning_distances.resize(max_cap, 0);
        scratch.pruning_positions.resize(max_cap, 0);
        let mut heap = CandidateHeap::new();
        proof {
            assert(scratch.quantized_query@ =~= query@);
        }
        for i in 0..self.clusters.len()
            invariant
                self.wf(),
                n == self.dims,
                query@.len() == self.dims,
                vertical == vertical_count(n),
                k > 0 || (forall|i: int|
                    0 <= i < self.clusters@.len() ==> (#[trigger] self.clusters@[i]).num_embeddings
                        == 0),
                is_function(*key_of),
                is_function_up_to(*threshold_of, self.dims as int),
                spec == self.search_spec(query@, k, *key_of, *threshold_of),
                cap == largest_capacity(self.clusters@, self.clusters@.len()),
                cap <= max_cap,
                scratch.quantized_query@ == query@,
                scratch.pruning_distances@.len() == max_cap,
                scratch.pruning_positions@.len() == max_cap,
                heap.wf(),
                heap@ == spec.visit_all(self.clusters@, i as nat),
        {
            let cluster = &self.clusters[i];
            let lanes: usize = cluster.num_embeddings;
            proof {
                lemma_largest_capacity(self.clusters@, self.clusters@.len(), i as int);
                assert(self.clusters@[i as int].wf(n));
            }
            if lanes > 0 {
                if heap.len() < k {
                    start_cluster(
                        query,
                        cluster,
                        self.dims,
                        vertical,
                        k,
                        key_of,
                        &mut scratch.pruning_distances,
                        &mut heap,
                        Ghost(spec),
                    );
                } else {
                    let worst: u32 = match heap.worst() {
                        Some(w) => w,
                        None => 0,
                    };
                    let needed: usize = exit_count(self.selectivity_threshold, lanes);
                    let ghost s = cluster.scan(query@, n);
                    let w: usize = warmup(
                        query,
                        &cluster.data,
                        lanes,
                        cluster.max_capacity,
                        self.dims,
                        vertical,
                        needed,
                        worst,
                        threshold_of,
                        &mut scratch.pruning_distances,
                    );
                    let left: usize = prune(
                        query,
                        &cluster.data,
                        lanes,
                        cluster.max_capacity,
                        self.dims,
                        vertical,
                        w,
                        worst,
                        threshold_of,
                        &mut scratch.pruning_positions,
                        &mut scratch.pruning_distances,
                    );
                    proof {
                        assert(heap@.last().dist == worst);
                        let alive = |l: int| s.survives(l, w as int, worst, spec.thr);
                        lemma_lanes_where(s.lanes, alive);
                        let list = scratch.pruning_positions@.take(left as int);
                        assert(list =~= spec.survivors(*cluster, worst));
                        assert forall|j: int| 0 <= j < left implies
                            #[trigger] scratch.pruning_positions@[j] < lanes
                            && scratch.pruning_distances@[scratch.pruning_positions@[j] as int]
                            == s.distance(scratch.pruning_positions@[j] as int) by {
                            assert(list[j] == lanes_where(s.lanes, alive)[j]);
                            assert(s.survives(list[j] as int, w as int, worst, spec.thr));
                        }
                    }
                    merge_into_heap(
                        cluster,
                        left,
                        k,
                        &scratch.pruning_positions,
                        &scratch.pruning_distances,
                        key_of,
                        &mut heap,
                        Ghost(spec),
                        Ghost(worst),
                    );
                }
            }
        }
        proof {
            if k > 0 && self.clusters@.len() == 1 {
                let c = self.clusters@[0];
                assert(self.clusters@ =~= seq![c]);
                if spec.ranks_by_distance(c) {
                    law_single_cluster_search_is_ranked(spec, c);
                }
            }
        }
        build_result_set_from_heap(heap)
    }
}

/// The candidates as pairs of corpus index and key, nearest first.
fn build_result_set_from_heap(heap: CandidateHeap) -> (r: Vec<(usize, u32)>)
    requires
        heap.wf(),
    ensures
        r@ == as_hits(heap@),
        ascending(heap@),
{
    let ghost found = heap@;
    let ranked = heap.into_ranked();
    let mut out: Vec<(usize, u32)> = Vec::new();
    for i in 0..ranked.len()
        invariant
            out@.len() == i,
            forall|j: int|
                0 <= j < i ==> #[trigger] out@[j] == (
                    ranked@[j].corpus_idx as usize,
                    ranked@[j].dist,
                ),
    {
        out.push((ranked[i].corpus_idx as usize, ranked[i].dist));
    }
    proof {
        assert(out@ =~= as_hits(found));
    }
    out
}

/// Occupied slots of the first `n` clusters.
pub open spec fn occupied(clusters: Seq<PdxClusterBuffer>, n: nat) -> nat
    decreases n,
{
    if n == 0 {
        0
    } else {
        occupied(clusters, (n - 1) as nat) + clusters[n - 1].num_embeddings as nat
    }
}

/// A search finds as many candidates as were asked for, or all vectors where
/// there are fewer.
pub proof fn law_search_finds_k(spec: SearchSpec, clusters: Seq<PdxClusterBuffer>, n: nat)
    requires
        n <= clusters.len(),
        0 < spec.k,
        0 < spec.dims <= u32::MAX,
        spec.query.len() == spec.dims,
        forall|i: int| 0 <= i < clusters.len() ==> (#[trigger] clusters[i]).wf(spec.dims),
    ensures
        ascending(spec.visit_all(clusters, n)),
        spec.visit_all(clusters, n).len() == if occupied(clusters, n) <= spec.k {
            occupied(clusters, n)
        } else {
            spec.k as nat
        },
    decreases n,
{
    if n > 0 {
        law_search_finds_k(spec, clusters, (n - 1) as nat);
        let known = spec.visit_all(clusters, (n - 1) as nat);
        let c = clusters[n - 1];
        if c.num_embeddings > 0 {
            if known.len() < spec.k {
                let count = spec.start_count(known.len(), c.num_embeddings as nat);
                lemma_push_all(known, spec.nearest(c, count));
            } else {
                lemma_offer_all(
                    known,
                    spec.k as nat,
                    spec.survivor_candidates(c, known.last().dist),
                );
            }
        }
    }
}

/// Every candidate that a search finds is an occupied slot of some cluster,
/// with the key of its distance over all dimensions.
pub proof fn law_found_candidates_are_slots(
    spec: SearchSpec,
    clusters: Seq<PdxClusterBuffer>,
    n: nat,
    x: KnCand,
)
    requires
        n <= clusters.len(),
        0 < spec.k,
        0 < spec.dims <= u32::MAX,
        spec.query.len() == spec.dims,
        forall|i: int| 0 <= i < clusters.len() ==> (#[trigger] clusters[i]).wf(spec.dims),
        spec.visit_all(clusters, n).contains(x),
    ensures
        exists|i: int, lane: int|
            0 <= i < n && 0 <= lane < clusters[i].num_embeddings && x == #[trigger] spec.candidate(
                clusters[i],
                lane,
            ),
    decreases n,
{
    let known = spec.visit_all(clusters, (n - 1) as nat);
    law_search_finds_k(spec, clusters, (n - 1) as nat);
    let c = clusters[n - 1];
    assert(c.wf(spec.dims));
    if known.contains(x) {
        law_found_candidates_are_slots(spec, clusters, (n - 1) as nat, x);
        let (i, lane) = choose|i: int, lane: int|
            0 <= i < n - 1 && 0 <= lane < clusters[i].num_embeddings && x
                == #[trigger] spec.candidate(clusters[i], lane);
        assert(x == spec.candidate(clusters[i], lane));
    } else if known.len() < spec.k {
        let count = spec.start_count(known.len(), c.num_embeddings as nat);
        let list = spec.nearest(c, count);
        lemma_push_all(known, list);
        let i = choose|i: int| 0 <= i < list.len() && list[i] == x;
        lemma_order_exists(spec.distances(c));
        let lane = order_of(spec.distances(c))[i] as int;
        assert(x == spec.candidate(clusters[n - 1], lane));
    } else {
        let worst = known.last().dist;
        let list = spec.survivor_candidates(c, worst);
        lemma_offer_all(known, spec.k as nat, list);
        let i = choose|i: int| 0 <= i < list.len() && list[i] == x;
        let s = c.scan(spec.query, spec.dims);
        let w = s.warm_from(0, 0, needed_to_exit(spec.selectivity, s.lanes), worst, spec.thr);
        lemma_lanes_where(s.lanes, |l: int| s.survives(l, w, worst, spec.thr));
        let lane = spec.survivors(c, worst)[i] as int;
        assert(x == spec.candidate(clusters[n - 1], lane));
    }
}

/// In an index packed from code rows, every candidate that a search finds
/// carries the key of the squared distance between the query and the row at
/// its corpus index.
pub proof fn law_found_keys_are_row_distances(
    spec: SearchSpec,
    clusters: Seq<PdxClusterBuffer>,
    rows: Seq<Vec<u8>>,
    chunk: nat,
    x: KnCand,
)
    requires
        0 < spec.k,
        0 < spec.dims <= u32::MAX,
        spec.query.len() == spec.dims,
        rows.len() <= u32::MAX,
        chunk > 0,
        forall|i: int| 0 <= i < clusters.len() ==> (#[trigger] clusters[i]).wf(spec.dims),
        (clusters.len() - 1) * chunk < rows.len() <= clusters.len() * chunk,
        forall|i: int|
            0 <= i < clusters.len() ==> holds_rows(
                #[trigger] clusters[i],
                rows,
                spec.dims,
                i * chunk,
                chunk_len(rows.len(), chunk, i),
            ),
        spec.visit_all(clusters, clusters.len()).contains(x),
    ensures
        x.corpus_idx < rows.len(),
        x.dist == (spec.key)(
            saturated(
                dist_range(spec.query, rows[x.corpus_idx as int]@, 0, spec.dims as int),
            ) as u32,
        ),
{
    law_found_candidates_are_slots(spec, clusters, clusters.len(), x);
    let (i, lane) = choose|i: int, lane: int|
        0 <= i < clusters.len() && 0 <= lane < clusters[i].num_embeddings && x
            == #[trigger] spec.candidate(clusters[i], lane);
    let c = clusters[i];
    let m = chunk_len(rows.len(), chunk, i);
    assert((i + 1) * chunk == i * chunk + chunk) by (nonlinear_arith);
    assert(i * chunk >= 0) by (nonlinear_arith)
        requires
            i >= 0,
    ;
    assert(slot_codes(c.data@, c.max_capacity as int, lane, spec.dims) == rows[i * chunk
        + lane]@);
    assert(c.corpus_indices@[lane] == (i * chunk + lane) as u32);
}

/// A search over a single cluster ranks exhaustively: it finds the nearest
/// slots by distance and slot number, and no slot that is left out is nearer
/// than one that is found.
pub proof fn law_single_cluster_search_is_exhaustive(spec: SearchSpec, c: PdxClusterBuffer)
    requires
        0 < spec.k,
        0 < spec.dims <= u32::MAX,
        spec.query.len() == spec.dims,
        c.wf(spec.dims),
    ensures
        ({
            let m = c.num_embeddings as nat;
            let count = if m <= spec.k {
                m
            } else {
                spec.k as nat
            };
            let order = order_of(spec.distances(c));
            &&& is_stable_order(spec.distances(c), order)
            &&& spec.visit_all(seq![c], 1).to_multiset() == spec.nearest(c, count).to_multiset()
            &&& forall|i: int, j: int|
                0 <= i < count <= j < m ==> spec.distances(c)[#[trigger] order[i] as int]
                    <= spec.distances(c)[#[trigger] order[j] as int]
        }),
{
    broadcast use vstd::seq_lib::group_to_multiset_ensures;

    let m = c.num_embeddings as nat;
    let none = Seq::<KnCand>::empty();
    let clusters = seq![c];
    assert(spec.visit_all(clusters, 0) == none);
    assert(spec.visit_all(clusters, 1) == spec.visit(none, clusters[0]));
    let keys = spec.distances(c);
    lemma_order_exists(keys);
    let order = order_of(keys);
    assert forall|i: int, j: int| 0 <= i < j < m implies keys[#[trigger] order[i] as int]
        <= keys[#[trigger] order[j] as int] by {
        assert(key_before(keys, order[i] as int, order[j] as int));
    }
    let count = spec.start_count(0, m);
    let list = spec.nearest(c, count);
    if m == 0 {
        assert(list =~= none);
    } else {
        lemma_push_all(none, list);
        assert(none.to_multiset().add(list.to_multiset()) =~= list.to_multiset());
    }
}

/// A search over a single cluster hands out its nearest slots by distance and,
/// among equal distances, by rising corpus index: where keys are ordered as the
/// distances of the cluster are, the first of all slots in that order.
pub proof fn law_single_cluster_search_is_ranked(spec: SearchSpec, c: PdxClusterBuffer)
    requires
        0 < spec.k,
        0 < spec.dims <= u32::MAX,
        spec.query.len() == spec.dims,
        c.wf(spec.dims),
        spec.ranks_by_distance(c),
    ensures
        ({
            let count = smaller(c.num_embeddings as nat, spec.k as nat);
            &&& is_stable_order(spec.distances(c), order_of(spec.distances(c)))
            &&& spec.visit_all(seq![c], 1) == spec.nearest(c, count)
        }),
{
    law_single_cluster_search_is_exhaustive(spec, c);
    law_search_finds_k(spec, seq![c], 1);
    let m = c.num_embeddings as nat;
    let count = if m <= spec.k {
        m
    } else {
        spec.k as nat
    };
    let keys = spec.distances(c);
    let order = order_of(keys);
    let list = spec.nearest(c, count);
    let found = spec.visit_all(seq![c], 1);
    let leq = |a: KnCand, b: KnCand| precedes(a, b);
    assert forall|i: int, j: int| 0 <= i < j < list.len() implies #[trigger] leq(
        list[i],
        list[j],
    ) by {
        let a = order[i] as int;
        let b = order[j] as int;
        assert(key_before(keys, a, b));
        if keys[a] < keys[b] {
            assert(spec.candidate(c, a).dist < spec.candidate(c, b).dist);
        } else {
            assert(c.corpus_indices@[a] < c.corpus_indices@[b]);
            assert(c.scan(spec.query, spec.dims).distance(a) == c.scan(
                spec.query,
                spec.dims,
            ).distance(b));
        }
    }
    assert forall|i: int, j: int| 0 <= i < j < found.len() implies #[trigger] leq(
        found[i],
        found[j],
    ) by {
        assert(precedes(found[i], found[j]));
    }
    vstd::seq_lib::lemma_sorted_unique(found, list, leq);
}

/// The occupied slots of a cluster as candidates.
pub open spec fn cluster_candidates(spec: SearchSpec, cluster: PdxClusterBuffer) -> Seq<KnCand> {
    Seq::new(cluster.num_embeddings as nat, |l: int| spec.candidate(cluster, l))
}

/// The occupied slots of the first `n` clusters as candidates.
pub open spec fn all_candidates(
    spec: SearchSpec,
    clusters: Seq<PdxClusterBuffer>,
    n: nat,
) -> Seq<KnCand> {
    Seq::new(n, |i: int| cluster_candidates(spec, clusters[i])).flatten()
}

/// A larger distance never has a smaller key.
pub open spec fn keys_follow_distances(spec: SearchSpec) -> bool {
    forall|x: u32, y: u32| x <= y ==> #[trigger] (spec.key)(x) <= #[trigger] (spec.key)(y)
}

/// No threshold drops a distance whose key is below that of the farthest
/// candidate.
pub open spec fn thresholds_are_exact(spec: SearchSpec) -> bool {
    forall|x: u32, y: u32, v: u32|
        #[trigger] (spec.key)(x) < (spec.key)(y) ==> x < #[trigger] (spec.thr)((spec.key)(y), v)
}

proof fn lemma_split_candidates(m: nat, f: spec_fn(int) -> KnCand, p: spec_fn(int) -> bool)
    requires
        m <= u32::MAX,
    ensures
        forall|x: KnCand| #[trigger]
            Seq::new(m, f).to_multiset().count(x) == lanes_where(m, p).map_values(
                |l: u32| f(l as int),
            ).to_multiset().count(x) + lanes_where(m, |l: int| !p(l)).map_values(
                |l: u32| f(l as int),
            ).to_multiset().count(x),
    decreases m,
{
    broadcast use vstd::seq_lib::group_to_multiset_ensures;

    let q = |l: int| !p(l);
    let g = |l: u32| f(l as int);
    if m == 0 {
        assert(Seq::new(m, f) =~= Seq::empty());
        assert(lanes_where(m, p).map_values(g) =~= Seq::empty());
        assert(lanes_where(m, q).map_values(g) =~= Seq::empty());
    } else {
        let n = (m - 1) as nat;
        lemma_split_candidates(n, f, p);
        assert(Seq::new(m, f) =~= Seq::new(n, f).push(f(n as int)));
        let a = lanes_where(n, p);
        let b = lanes_where(n, q);
        assert(a.push(n as u32).map_values(g) =~= a.map_values(g).push(f(n as int)));
        assert(b.push(n as u32).map_values(g) =~= b.map_values(g).push(f(n as int)));
    }
}

/// Once `k` candidates are known, a visit keeps the `k` nearest of them and of
/// all occupied slots of the cluster: one that is left out is no nearer than
/// the last that stays.
pub proof fn law_visit_keeps_the_nearest(spec: SearchSpec, known: Seq<KnCand>, c: PdxClusterBuffer)
    requires
        0 < spec.k == known.len(),
        0 < spec.dims <= u32::MAX,
        spec.query.len() == spec.dims,
        c.wf(spec.dims),
        ascending(known),
        exists|y: u32| known.last().dist == #[trigger] (spec.key)(y),
        thresholds_are_exact(spec),
    ensures
        ascending(spec.visit(known, c)),
        spec.visit(known, c).len() == spec.k,
        spec.visit(known, c).last().dist <= known.last().dist,
        forall|x: KnCand| #[trigger]
            spec.visit(known, c).to_multiset().count(x) <= known.to_multiset().count(x)
                + cluster_candidates(spec, c).to_multiset().count(x),
        forall|x: KnCand| #[trigger]
            spec.visit(known, c).to_multiset().count(x) < known.to_multiset().count(x)
                + cluster_candidates(spec, c).to_multiset().count(x) ==> spec.visit(
                known,
                c,
            ).last().dist <= x.dist,
{
    broadcast use vstd::seq_lib::group_to_multiset_ensures;

    let all = cluster_candidates(spec, c);
    let r = spec.visit(known, c);
    if c.num_embeddings == 0 {
        assert(all =~= Seq::empty());
    } else {
        let worst = known.last().dist;
        let s = c.scan(spec.query, spec.dims);
        assert(s.stride * s.dims <= s.data.len());
        assert(s.wf());
        let needed = needed_to_exit(spec.selectivity, s.lanes);
        let w = s.warm_from(0, 0, needed, worst, spec.thr);
        let p = |l: int| s.survives(l, w, worst, spec.thr);
        let q = |l: int| !p(l);
        let f = |l: int| spec.candidate(c, l);
        let g = |l: u32| f(l as int);
        lemma_split_candidates(s.lanes, f, p);
        assert(Seq::new(s.lanes, f) =~= all);
        let list = spec.survivor_candidates(c, worst);
        assert(list =~= lanes_where(s.lanes, p).map_values(g));
        let dropped = lanes_where(s.lanes, q).map_values(g);
        assert forall|x: KnCand| dropped.contains(x) implies worst <= #[trigger] x.dist by {
            let i = choose|i: int| 0 <= i < dropped.len() && dropped[i] == x;
            lemma_lanes_where(s.lanes, q);
            let l = lanes_where(s.lanes, q)[i] as int;
            assert(q(l));
            assert(x == f(l));
            if x.dist < worst {
                let y = choose|y: u32| known.last().dist == #[trigger] (spec.key)(y);
                assert forall|v: u32| s.distance(l) < #[trigger] (spec.thr)(worst, v) by {
                    assert((spec.key)(s.distance(l)) < (spec.key)(y));
                    assert(s.distance(l) < (spec.thr)((spec.key)(y), v));
                }
                law_near_slots_survive(s, l, needed, worst, spec.thr);
            }
        }
        law_offers_keep_the_nearest(known, spec.k as nat, list);
        assert(r == offer_all(known, spec.k as nat, list));
        assert forall|x: KnCand| #[trigger]
            r.to_multiset().count(x) < known.to_multiset().count(x) + all.to_multiset().count(
                x,
            ) implies r.last().dist <= x.dist by {
            if r.to_multiset().count(x) >= known.to_multiset().count(x) + list.to_multiset().count(
                x,
            ) {
                assert(dropped.to_multiset().count(x) > 0);
                assert(dropped.contains(x));
            }
        }
    }
}

/// While fewer than `k` candidates are known, a visit keeps them all and adds
/// the nearest slots of the cluster, as many as there is room for: a slot that
/// is not added is no nearer than any that is. The result is what is added and
/// what is not.
pub proof fn law_visit_adds_the_nearest(
    spec: SearchSpec,
    known: Seq<KnCand>,
    c: PdxClusterBuffer,
) -> (parts: (Seq<KnCand>, Seq<KnCand>))
    requires
        known.len() < spec.k,
        c.wf(spec.dims),
        ascending(known),
        keys_follow_distances(spec),
    ensures
        ascending(spec.visit(known, c)),
        spec.visit(known, c).to_multiset() == known.to_multiset().add(parts.0.to_multiset()),
        cluster_candidates(spec, c).to_multiset() == parts.0.to_multiset().add(
            parts.1.to_multiset(),
        ),
        parts.0.len() == smaller((spec.k - known.len()) as nat, c.num_embeddings as nat),
        forall|x: KnCand, y: KnCand|
            parts.0.contains(x) && parts.1.contains(y) ==> #[trigger] x.dist <= #[trigger] y.dist,
{
    broadcast use vstd::seq_lib::group_to_multiset_ensures;

    let all = cluster_candidates(spec, c);
    let keys = spec.distances(c);
    let n = c.num_embeddings as nat;
    let count = spec.start_count(known.len(), n);
    lemma_order_exists(keys);
    law_ordering_keeps_elements(all, keys);
    let order = order_of(keys);
    let ranked = Seq::new(n, |t: int| all[order[t] as int]);
    let added = spec.nearest(c, count);
    let left = ranked.skip(count as int);
    assert(added =~= ranked.take(count as int));
    assert(added + left =~= ranked);
    vstd::seq_lib::lemma_multiset_commutative(added, left);
    lemma_push_all(known, added);
    if n == 0 {
        assert(added =~= Seq::empty());
        assert(known.to_multiset().add(added.to_multiset()) =~= known.to_multiset());
    }
    assert forall|x: KnCand, y: KnCand| added.contains(x) && left.contains(y) implies #[trigger]
        x.dist <= #[trigger] y.dist by {
        let i = choose|i: int| 0 <= i < added.len() && added[i] == x;
        let j = choose|j: int| 0 <= j < left.len() && left[j] == y;
        let a = order[i] as int;
        let b = order[j + count] as int;
        assert(keys[a] <= keys[b]);
        let s = c.scan(spec.query, spec.dims);
        assert(x == spec.candidate(c, a));
        assert(left[j] == ranked[j + count]);
        assert(y == spec.candidate(c, b));
        assert((spec.key)(s.distance(a)) <= (spec.key)(s.distance(b)));
    }
    (added, left)
}

/// A search finds the nearest. With exact thresholds, what it finds are occupied
/// slots, `k` of them or all where there are fewer, and a slot that is left out
/// is no nearer than the last that is found. This needs that the first `k`
/// candidates come from one cluster, or from clusters that are taken up whole:
/// a cluster that fills the last places gives only as many slots as are left,
/// though others of it may be nearer than candidates of earlier clusters.
pub proof fn law_search_finds_the_nearest(
    spec: SearchSpec,
    clusters: Seq<PdxClusterBuffer>,
    n: nat,
)
    requires
        n <= clusters.len(),
        0 < spec.k,
        0 < spec.dims <= u32::MAX,
        spec.query.len() == spec.dims,
        forall|i: int| 0 <= i < clusters.len() ==> (#[trigger] clusters[i]).wf(spec.dims),
        keys_follow_distances(spec),
        thresholds_are_exact(spec),
        forall|i: nat|
            i < n ==> (#[trigger] occupied(clusters, i)) == 0 || occupied(clusters, i) >= spec.k
                || occupied(clusters, i + 1) <= spec.k,
    ensures
        ascending(spec.visit_all(clusters, n)),
        spec.visit_all(clusters, n).len() == smaller(
            spec.k as nat,
            all_candidates(spec, clusters, n).len(),
        ),
        forall|x: KnCand| #[trigger]
            spec.visit_all(clusters, n).to_multiset().count(x) <= all_candidates(
                spec,
                clusters,
                n,
            ).to_multiset().count(x),
        forall|x: KnCand| #[trigger]
            spec.visit_all(clusters, n).to_multiset().count(x) < all_candidates(
                spec,
                clusters,
                n,
            ).to_multiset().count(x) ==> spec.visit_all(clusters, n).len() == spec.k
                && spec.visit_all(clusters, n).last().dist <= x.dist,
        forall|i: int, lane: int|
            0 <= i < n && 0 <= lane < clusters[i].num_embeddings && !spec.visit_all(
                clusters,
                n,
            ).contains(#[trigger] spec.candidate(clusters[i], lane)) ==> spec.visit_all(
                clusters,
                n,
            ).len() == spec.k && spec.visit_all(clusters, n).last().dist <= spec.candidate(
                clusters[i],
                lane,
            ).dist,
    decreases n,
{
    broadcast use vstd::seq_lib::group_to_multiset_ensures;

    let all = all_candidates(spec, clusters, n);
    let r = spec.visit_all(clusters, n);
    let lists = Seq::new(n, |i: int| cluster_candidates(spec, clusters[i]));
    law_search_finds_k(spec, clusters, n);
    if n == 0 {
        assert(lists =~= Seq::empty());
        assert(all =~= Seq::empty());
    } else {
        let m = (n - 1) as nat;
        law_search_finds_the_nearest(spec, clusters, m);
        law_search_finds_k(spec, clusters, m);
        let known = spec.visit_all(clusters, m);
        let before = all_candidates(spec, clusters, m);
        let c = clusters[n - 1];
        let here = cluster_candidates(spec, c);
        let earlier = Seq::new(m, |i: int| cluster_candidates(spec, clusters[i]));
        assert(lists =~= earlier.push(here));
        earlier.lemma_flatten_push(here);
        assert(all =~= before + here);
        vstd::seq_lib::lemma_multiset_commutative(before, here);
        lemma_all_candidates_len(spec, clusters, m);
        assert(c.wf(spec.dims));
        if known.len() == spec.k {
            let worst = known.last();
            assert(known.contains(worst));
            law_found_candidates_are_slots(spec, clusters, m, worst);
            let (i, lane) = choose|i: int, lane: int|
                0 <= i < m && 0 <= lane < clusters[i].num_embeddings && worst
                    == #[trigger] spec.candidate(clusters[i], lane);
            assert(worst.dist == (spec.key)(
                clusters[i].scan(spec.query, spec.dims).distance(lane),
            ));
            law_visit_keeps_the_nearest(spec, known, c);
            assert forall|x: KnCand| #[trigger]
                r.to_multiset().count(x) < all.to_multiset().count(x) implies r.last().dist
                <= x.dist by {
                if r.to_multiset().count(x) >= known.to_multiset().count(x)
                    + here.to_multiset().count(x) {
                    assert(known.to_multiset().count(x) < before.to_multiset().count(x));
                }
            }
        } else {
            let parts = law_visit_adds_the_nearest(spec, known, c);
            assert(occupied(clusters, m) < spec.k);
            assert(known.to_multiset() =~= before.to_multiset()) by {
                assert forall|x: KnCand| known.to_multiset().count(x)
                    == before.to_multiset().count(x) by {
                    assert(known.to_multiset().count(x) <= before.to_multiset().count(x));
                }
            }
            assert forall|x: KnCand| #[trigger]
                r.to_multiset().count(x) < all.to_multiset().count(x) implies r.len() == spec.k
                && r.last().dist <= x.dist by {
                assert(parts.1.to_multiset().count(x) > 0);
                assert(parts.1.contains(x));
                assert(parts.0.to_multiset().len() + parts.1.to_multiset().len()
                    == here.to_multiset().len());
                assert(parts.1.len() > 0);
                assert(occupied(clusters, (m + 1) as nat) > spec.k);
                assert(occupied(clusters, m) == 0);
                assert(known =~= Seq::empty());
                assert(r.contains(r.last()));
                assert(r.to_multiset().count(r.last()) > 0);
                assert(parts.0.to_multiset().count(r.last()) > 0);
                assert(parts.0.contains(r.last()));
            }
        }
        assert forall|i: int, lane: int|
            0 <= i < n && 0 <= lane < clusters[i].num_embeddings && !r.contains(
                #[trigger] spec.candidate(clusters[i], lane),
            ) implies r.len() == spec.k && r.last().dist <= spec.candidate(
            clusters[i],
            lane,
        ).dist by {
            let x = spec.candidate(clusters[i], lane);
            lemma_candidate_listed(spec, clusters, n, i, lane);
            assert(all.to_multiset().count(x) > 0);
            assert(r.to_multiset().count(x) == 0);
        }
    }
}

proof fn lemma_all_candidates_len(spec: SearchSpec, clusters: Seq<PdxClusterBuffer>, n: nat)
    ensures
        all_candidates(spec, clusters, n).len() == occupied(clusters, n),
    decreases n,
{
    let lists = Seq::new(n, |i: int| cluster_candidates(spec, clusters[i]));
    if n == 0 {
        assert(lists =~= Seq::empty());
    } else {
        let m = (n - 1) as nat;
        lemma_all_candidates_len(spec, clusters, m);
        let earlier = Seq::new(m, |i: int| cluster_candidates(spec, clusters[i]));
        let here = cluster_candidates(spec, clusters[n - 1]);
        assert(lists =~= earlier.push(here));
        earlier.lemma_flatten_push(here);
    }
}

proof fn lemma_candidate_listed(
    spec: SearchSpec,
    clusters: Seq<PdxClusterBuffer>,
    n: nat,
    i: int,
    lane: int,
)
    requires
        0 <= i < n,
        0 <= lane < clusters[i].num_embeddings,
    ensures
        all_candidates(spec, clusters, n).contains(spec.candidate(clusters[i], lane)),
    decreases n,
{
    let lists = Seq::new(n, |i: int| cluster_candidates(spec, clusters[i]));
    let m = (n - 1) as nat;
    let earlier = Seq::new(m, |i: int| cluster_candidates(spec, clusters[i]));
    let here = cluster_candidates(spec, clusters[n - 1]);
    assert(lists =~= earlier.push(here));
    earlier.lemma_flatten_push(here);
    let before = all_candidates(spec, clusters, m);
    let all = all_candidates(spec, clusters, n);
    assert(all =~= before + here);
    let x = spec.candidate(clusters[i], lane);
    if i < m {
        lemma_candidate_listed(spec, clusters, m, i, lane);
        let t = choose|t: int| 0 <= t < before.len() && before[t] == x;
        assert(all[t] == x);
    } else {
        assert(all[before.len() + lane] == x);
    }
}

/// The bytes of the clusters add up, and so do their occupied slots.
pub proof fn law_storage_adds_up(clusters: Seq<PdxClusterBuffer>, n: nat)
    ensures
        storage(clusters, n) == total(n, |i: int| clusters[i].data@.len() as int),
        occupied(clusters, n) == total(n, |i: int| clusters[i].num_embeddings as int),
    decreases n,
{
    let bytes = |i: int| clusters[i].data@.len() as int;
    let slots = |i: int| clusters[i].num_embeddings as int;
    if n > 0 {
        law_storage_adds_up(clusters, (n - 1) as nat);
        lemma_total_step((n - 1) as nat, bytes);
        lemma_total_step((n - 1) as nat, slots);
    } else {
        lemma_total_step(0, bytes);
        lemma_total_step(0, slots);
    }
}

/// The largest capacity is that of some cluster, and none has a larger one.
pub proof fn law_largest_capacity_is_largest(clusters: Seq<PdxClusterBuffer>, n: nat)
    ensures
        forall|i: int|
            0 <= i < n ==> (#[trigger] clusters[i]).max_capacity <= largest_capacity(clusters, n),
        n == 0 ==> largest_capacity(clusters, n) == 0,
        n > 0 ==> exists|i: int|
            0 <= i < n && (#[trigger] clusters[i]).max_capacity == largest_capacity(clusters, n),
    decreases n,
{
    if n > 0 {
        law_largest_capacity_is_largest(clusters, (n - 1) as nat);
        assert(clusters[n - 1].max_capacity <= largest_capacity(clusters, n));
        if clusters[n - 1].max_capacity != largest_capacity(clusters, n) {
            assert(n > 1);
            let i = choose|i: int|
                0 <= i < n - 1 && (#[trigger] clusters[i]).max_capacity == largest_capacity(
                    clusters,
                    (n - 1) as nat,
                );
            assert(clusters[i].max_capacity == largest_capacity(clusters, n));
        }
    }
}

/// A cluster has room for its vectors, and for at least 256.
pub proof fn law_capacity_holds_the_vectors(m: nat)
    ensures
        chunk_capacity(m) >= m,
        chunk_capacity(m) >= 256,
{
}

/// Slots that must be prunable are the least number that is not below the share,
/// but at least one.
pub proof fn law_exit_count_is_the_ceiling(selectivity: u32, m: nat)
    requires
        needed_to_exit(selectivity, m) < usize::MAX,
    ensures
        ({
            let limit = SINGLE_LIMIT as nat;
            let share = round_nearest((round_nearest(m, limit) * selectivity) as nat, limit);
            let r = needed_to_exit(selectivity, m);
            &&& r >= 1
            &&& r * 0x100_0000 >= share
            &&& r > 1 ==> (r - 1) * 0x100_0000 < share
        }),
{
}

/// Reserved slots are the least number that is not below 1.3 times as many as
/// there are vectors, where that is more than 256 and than the vectors.
pub proof fn law_capacity_is_the_ceiling(m: nat)
    ensures
        ({
            let limit = SINGLE_LIMIT as nat;
            let grown = round_nearest((round_nearest(m, limit) * GROWTH_NUMERATOR) as nat, limit);
            let r = chunk_capacity(m);
            &&& r * 0x80_0000 >= grown
            &&& r > 256 && r > m ==> (r - 1) * 0x80_0000 < grown
        }),
{
}

proof fn lemma_occupied_chunks(
    clusters: Seq<PdxClusterBuffer>,
    rows: Seq<Vec<u8>>,
    dims: nat,
    chunk: nat,
    n: nat,
)
    requires
        chunk > 0,
        n <= clusters.len(),
        (clusters.len() - 1) * chunk < rows.len() <= clusters.len() * chunk,
        forall|i: int|
            0 <= i < clusters.len() ==> holds_rows(
                #[trigger] clusters[i],
                rows,
                dims,
                i * chunk,
                chunk_len(rows.len(), chunk, i),
            ),
    ensures
        occupied(clusters, n) == smaller(n * chunk, rows.len()),
    decreases n,
{
    if n > 0 {
        let m = (n - 1) as nat;
        lemma_occupied_chunks(clusters, rows, dims, chunk, m);
        assert(holds_rows(
            clusters[m as int],
            rows,
            dims,
            m as int * chunk,
            chunk_len(rows.len(), chunk, m as int),
        ));
        assert(n * chunk == m * chunk + chunk) by (nonlinear_arith)
            requires
                n == m + 1,
        ;
        assert((m + 1) * chunk == n * chunk);
        assert(m * chunk <= (clusters.len() - 1) * chunk) by (nonlinear_arith)
            requires
                m <= clusters.len() - 1,
        ;
        assert(clusters[n - 1].num_embeddings == chunk_len(rows.len(), chunk, m as int));
    } else {
        assert(n * chunk == 0) by (nonlinear_arith)
            requires
                n == 0,
        ;
    }
}

/// Chunks hold all rows, each at its place: row `r` is in the chunk that its
/// number falls into, in the slot after those of the rows before it.
pub proof fn law_chunks_hold_all_rows(
    clusters: Seq<PdxClusterBuffer>,
    rows: Seq<Vec<u8>>,
    dims: nat,
    chunk: nat,
    r: int,
)
    requires
        chunk > 0,
        rows.len() <= u32::MAX,
        (clusters.len() - 1) * chunk < rows.len() <= clusters.len() * chunk,
        forall|i: int|
            0 <= i < clusters.len() ==> holds_rows(
                #[trigger] clusters[i],
                rows,
                dims,
                i * chunk,
                chunk_len(rows.len(), chunk, i),
            ),
        0 <= r < rows.len(),
    ensures
        ({
            let c = clusters[r / (chunk as int)];
            let slot = r % (chunk as int);
            &&& 0 <= r / (chunk as int) < clusters.len()
            &&& 0 <= slot < c.num_embeddings
            &&& c.corpus_indices@[slot] == r
            &&& slot_codes(c.data@, c.max_capacity as int, slot, dims) == rows[r]@
        }),
{
    let k = chunk as int;
    let i = r / k;
    let slot = r % k;
    vstd::arithmetic::div_mod::lemma_fundamental_div_mod(r, k);
    vstd::arithmetic::div_mod::lemma_mod_bound(r, k);
    assert(k * i == i * k) by (nonlinear_arith);
    assert(0 <= i) by (nonlinear_arith)
        requires
            i * k + slot == r,
            r >= 0,
            slot < k,
            k > 0,
    ;
    assert(i < clusters.len()) by (nonlinear_arith)
        requires
            i * k + slot == r,
            0 <= slot,
            r < clusters.len() * k,
            k > 0,
    ;
    assert(holds_rows(clusters[i], rows, dims, i * chunk, chunk_len(rows.len(), chunk, i)));
    assert((i + 1) * k == i * k + k) by (nonlinear_arith);
    assert(slot < chunk_len(rows.len(), chunk, i));
    assert(slot_codes(clusters[i].data@, clusters[i].max_capacity as int, slot, dims) == rows[i
        * chunk + slot]@);
}

/// A search of packed rows finds the nearest rows: with exact thresholds, every
/// row is found with the key of its squared distance to the query, or as many
/// rows are found as were asked for and it is no nearer than the last of them.
/// As many rows must be asked for as fit into one chunk, as make up whole
/// chunks, or as there are.
pub proof fn law_packed_search_finds_the_nearest_rows(
    spec: SearchSpec,
    clusters: Seq<PdxClusterBuffer>,
    rows: Seq<Vec<u8>>,
    chunk: nat,
    r: int,
)
    requires
        0 < spec.k,
        0 < spec.dims <= u32::MAX,
        spec.query.len() == spec.dims,
        rows.len() <= u32::MAX,
        chunk > 0,
        forall|i: int| 0 <= i < clusters.len() ==> (#[trigger] clusters[i]).wf(spec.dims),
        (clusters.len() - 1) * chunk < rows.len() <= clusters.len() * chunk,
        forall|i: int|
            0 <= i < clusters.len() ==> holds_rows(
                #[trigger] clusters[i],
                rows,
                spec.dims,
                i * chunk,
                chunk_len(rows.len(), chunk, i),
            ),
        keys_follow_distances(spec),
        thresholds_are_exact(spec),
        spec.k <= chunk || spec.k as int % chunk as int == 0 || rows.len() <= spec.k,
        0 <= r < rows.len(),
    ensures
        ({
            let found = spec.visit_all(clusters, clusters.len());
            let squared = total(
                spec.dims,
                |d: int| (spec.query[d] - rows[r]@[d]) * (spec.query[d] - rows[r]@[d]),
            );
            let own = KnCand {
                dist: (spec.key)(
                    if squared <= u32::MAX {
                        squared as u32
                    } else {
                        u32::MAX
                    },
                ),
                corpus_idx: r as u32,
            };
            found.contains(own) || (found.len() == spec.k && found.last().dist <= own.dist)
        }),
{
    let n = clusters.len();
    let k = spec.k as int;
    let h = chunk as int;
    assert forall|i: nat| i < n implies (#[trigger] occupied(clusters, i)) == 0 || occupied(
        clusters,
        i,
    ) >= spec.k || occupied(clusters, i + 1) <= spec.k by {
        lemma_occupied_chunks(clusters, rows, spec.dims, chunk, i);
        lemma_occupied_chunks(clusters, rows, spec.dims, chunk, i + 1);
        let a = i as int;
        assert((a + 1) * h == a * h + h) by (nonlinear_arith);
        assert((i + 1) * chunk == (a + 1) * h);
        assert(i * chunk == a * h);
        if spec.k <= chunk {
            if i > 0 {
                assert(a * h >= h) by (nonlinear_arith)
                    requires
                        a >= 1,
                        h > 0,
                ;
            } else {
                assert(a * h == 0) by (nonlinear_arith)
                    requires
                        a == 0,
                ;
            }
        } else if rows.len() > spec.k {
            vstd::arithmetic::div_mod::lemma_fundamental_div_mod(k, h);
            let q = k / h;
            if a * h < k {
                assert((a + 1) * h <= k) by (nonlinear_arith)
                    requires
                        k == h * q,
                        a * h < k,
                        h > 0,
                ;
            }
        }
    }
    law_search_finds_the_nearest(spec, clusters, n);
    law_chunks_hold_all_rows(clusters, rows, spec.dims, chunk, r);
    let i = r / h;
    let slot = r % h;
    let s = clusters[i].scan(spec.query, spec.dims);
    law_distances_are_totals(spec.query, rows[r]@, spec.dims);
    assert(s.codes(slot) == rows[r]@);
    let own = spec.candidate(clusters[i], slot);
    assert(own.corpus_idx == r);
    let found = spec.visit_all(clusters, n);
    if !found.contains(own) {
        assert(found.len() == spec.k && found.last().dist <= own.dist);
    }
}

} // verus!
