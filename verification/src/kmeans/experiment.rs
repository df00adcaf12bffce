//! A clustering experiment: what it counts and what it reports.
use std::collections::HashMap;
use vstd::prelude::*;
use crate::arith::lemma_places_step;
use crate::fraction::{fraction_round, share_nearest, WHOLE_BITS};
use crate::functions::is_function_within;
use crate::kmeans::balance::members;
use crate::kmeans::duplication::{lemma_listed_row, listed_clusters, total_members};
use crate::kmeans::superkmeans::batch::{find_k_nearest_neighbors, k_nearest_of, row_holds};

verus! {

/// Settings of the experiment. Ratios and fractions are bit patterns of
/// single-precision numbers.
#[derive(Debug, Clone)]
pub struct KMeansExperiment {
    pub centroid_ratio: Vec<u32>,
    pub iters: u32,
    pub sampling_fraction: u32,
    pub max_points_per_cluster: u32,
    pub seed: u64,
    pub verbose: bool,
    pub hierarchical: bool,
    pub hierarchical_iters_per_bisect: usize,
    pub duplicate_max: usize,
    pub duplicate_ratio: u32,
    pub nredo: usize,
    pub spherical: bool,
    pub recall_k: Vec<usize>,
    pub recall_n: Vec<u32>,
}

/// A number between `lo` and `hi` as near to `x` as possible.
pub open spec fn between(x: int, lo: int, hi: int) -> int {
    if x < lo {
        lo
    } else if x > hi {
        hi
    } else {
        x
    }
}

/// The part of `n` things that a fraction is: rounded, at least one and at most
/// all. A negative fraction, or none that is a number, gives one; fractions
/// from `2^23` on give all.
pub open spec fn part_of(n: int, fraction: u32) -> int {
    if fraction < WHOLE_BITS {
        between(share_nearest(n as nat, fraction) as int, 1, n)
    } else if fraction <= 0x7f80_0000 {
        n
    } else {
        1
    }
}

/// The number of clusters for `n` vectors, of which they are the given ratio.
pub fn centroid_count(n: usize, ratio: u32) -> (k: usize)
    requires
        n > 0,
    ensures
        k == part_of(n as int, ratio),
{
    if ratio >= WHOLE_BITS {
        return if ratio <= 0x7f80_0000 {
            n
        } else {
            1
        };
    }
    let k: usize = fraction_round(n, ratio);
    if k < 1 {
        1
    } else if k > n {
        n
    } else {
        k
    }
}

pub open spec fn largest(counts: Seq<usize>, n: nat) -> usize
    decreases n,
{
    if n == 0 {
        0
    } else {
        let rest = largest(counts, (n - 1) as nat);
        if counts[n - 1] > rest {
            counts[n - 1]
        } else {
            rest
        }
    }
}

proof fn lemma_largest(counts: Seq<usize>, n: nat, i: int)
    requires
        0 <= i < n,
    ensures
        counts[i] <= largest(counts, n),
    decreases n,
{
    if i < n - 1 {
        lemma_largest(counts, (n - 1) as nat, i);
    }
}

fn largest_of(counts: &[usize]) -> (r: usize)
    ensures
        r == largest(counts@, counts@.len()),
{
    let mut r: usize = 0;
    for i in 0..counts.len()
        invariant
            r == largest(counts@, i as nat),
    {
        if counts[i] > r {
            r = counts[i];
        }
    }
    r
}

/// How many clusters each fraction stands for.
pub fn fan_out_counts(fractions: &[u32], n_clusters: usize) -> (counts: Vec<usize>)
    requires
        n_clusters > 0,
    ensures
        counts@.len() == fractions@.len(),
        forall|i: int|
            0 <= i < counts@.len() ==> #[trigger] counts@[i] == part_of(
                n_clusters as int,
                fractions@[i],
            ),
{
    let mut counts: Vec<usize> = Vec::new();
    for i in 0..fractions.len()
        invariant
            n_clusters > 0,
            counts@.len() == i,
            forall|m: int|
                0 <= m < i ==> #[trigger] counts@[m] == part_of(
                    n_clusters as int,
                    fractions@[m],
                ),
    {
        counts.push(centroid_count(n_clusters, fractions[i]));
    }
    counts
}

/// The last place of `id` among the first `n` ids.
pub open spec fn last_place(ids: Seq<u64>, id: u64, n: nat) -> Option<usize>
    decreases n,
{
    if n == 0 {
        None
    } else if ids[n - 1] == id {
        Some((n - 1) as usize)
    } else {
        last_place(ids, id, (n - 1) as nat)
    }
}

/// The places of those of the first `n` documents of `truth` that are known.
pub open spec fn known_places(ids: Seq<u64>, truth: Seq<u64>, n: nat) -> Seq<usize>
    decreases n,
{
    if n == 0 {
        Seq::empty()
    } else {
        match last_place(ids, truth[n - 1], ids.len()) {
            Some(i) => known_places(ids, truth, (n - 1) as nat).push(i),
            None => known_places(ids, truth, (n - 1) as nat),
        }
    }
}

/// A document is in one of the first `width` clusters of `visited`.
pub open spec fn is_reached(clusters: Seq<u32>, visited: Seq<u32>, width: int) -> bool {
    exists|a: int, b: int|
        0 <= a < clusters.len() && 0 <= b < width && #[trigger] clusters[a]
            == #[trigger] visited[b]
}

/// How many of the first `n` documents are reached.
pub open spec fn reached(
    places: Seq<usize>,
    assignments: Seq<Vec<u32>>,
    visited: Seq<u32>,
    width: int,
    n: nat,
) -> nat
    decreases n,
{
    if n == 0 {
        0
    } else {
        reached(places, assignments, visited, width, (n - 1) as nat) + if is_reached(
            assignments[places[n - 1] as int]@,
            visited,
            width,
        ) {
            1nat
        } else {
            0
        }
    }
}

/// What a query finds: for each cut-off how many documents count, and for each
/// cut-off and each number of visited clusters how many of them are reached.
pub struct QueryRecall {
    pub counted: Vec<usize>,
    pub hits: Vec<Vec<usize>>,
}

/// How many known documents count for the cut-off `k`.
pub open spec fn counted_for(known: nat, k: usize) -> nat {
    if k <= known {
        k as nat
    } else {
        known
    }
}

pub open spec fn is_recall_of(
    r: QueryRecall,
    places: Seq<usize>,
    assignments: Seq<Vec<u32>>,
    visited: Seq<u32>,
    recall_k: Seq<usize>,
    counts: Seq<usize>,
) -> bool {
    &&& r.counted@.len() == recall_k.len()
    &&& r.hits@.len() == recall_k.len()
    &&& forall|a: int|
        0 <= a < recall_k.len() ==> #[trigger] r.counted@[a] == counted_for(
            places.len(),
            recall_k[a],
        )
    &&& forall|a: int| 0 <= a < recall_k.len() ==> (#[trigger] r.hits@[a])@.len() == counts.len()
    &&& forall|a: int, b: int|
        0 <= a < recall_k.len() && 0 <= b < counts.len() ==> #[trigger] r.hits@[a]@[b] == reached(
            places,
            assignments,
            visited,
            counts[b] as int,
            counted_for(places.len(), recall_k[a]),
        )
}

/// Whether a document is in one of the visited clusters.
fn document_reached(clusters: &[u32], visited: &[u32], width: usize) -> (r: bool)
    requires
        width <= visited@.len(),
    ensures
        r == is_reached(clusters@, visited@, width as int),
{
    for a in 0..clusters.len()
        invariant
            width <= visited@.len(),
            forall|m: int, b: int|
                0 <= m < a && 0 <= b < width ==> #[trigger] clusters@[m]
                    != #[trigger] visited@[b],
    {
        for b in 0..width
            invariant
                a < clusters@.len(),
                width <= visited@.len(),
                forall|m: int, b: int|
                    0 <= m < a && 0 <= b < width ==> #[trigger] clusters@[m]
                        != #[trigger] visited@[b],
                forall|e: int| 0 <= e < b ==> clusters@[a as int] != #[trigger] visited@[e],
        {
            if clusters[a] == visited[b] {
                assert(clusters@[a as int] == visited@[b as int]);
                return true;
            }
        }
    }
    false
}

/// Counts what one query finds.
fn query_recall(
    places: &Vec<usize>,
    assignments: &[Vec<u32>],
    visited: &[u32],
    recall_k: &[usize],
    counts: &[usize],
) -> (r: QueryRecall)
    requires
        forall|i: int| 0 <= i < places@.len() ==> #[trigger] places@[i] < assignments@.len(),
        forall|b: int| 0 <= b < counts@.len() ==> #[trigger] counts@[b] <= visited@.len(),
    ensures
        is_recall_of(r, places@, assignments@, visited@, recall_k@, counts@),
{
    let mut counted: Vec<usize> = Vec::new();
    let mut hits: Vec<Vec<usize>> = Vec::new();
    for a in 0..recall_k.len()
        invariant
            forall|i: int| 0 <= i < places@.len() ==> #[trigger] places@[i] < assignments@.len(),
            forall|b: int| 0 <= b < counts@.len() ==> #[trigger] counts@[b] <= visited@.len(),
            counted@.len() == a,
            hits@.len() == a,
            forall|m: int|
                0 <= m < a ==> #[trigger] counted@[m] == counted_for(places@.len(), recall_k@[m]),
            forall|m: int| 0 <= m < a ==> (#[trigger] hits@[m])@.len() == counts@.len(),
            forall|m: int, b: int|
                0 <= m < a && 0 <= b < counts@.len() ==> #[trigger] hits@[m]@[b] == reached(
                    places@,
                    assignments@,
                    visited@,
                    counts@[b] as int,
                    counted_for(places@.len(), recall_k@[m]),
                ),
    {
        let n: usize = if recall_k[a] <= places.len() {
            recall_k[a]
        } else {
            places.len()
        };
        let mut row: Vec<usize> = Vec::new();
        for b in 0..counts.len()
            invariant
                n <= places@.len(),
                forall|i: int|
                    0 <= i < places@.len() ==> #[trigger] places@[i] < assignments@.len(),
                forall|b: int| 0 <= b < counts@.len() ==> #[trigger] counts@[b] <= visited@.len(),
                row@.len() == b,
                forall|e: int|
                    0 <= e < b ==> #[trigger] row@[e] == reached(
                        places@,
                        assignments@,
                        visited@,
                        counts@[e] as int,
                        n as nat,
                    ),
        {
            let width: usize = counts[b];
            let mut found: usize = 0;
            for i in 0..n
                invariant
                    n <= places@.len(),
                    width <= visited@.len(),
                    forall|i: int|
                        0 <= i < places@.len() ==> #[trigger] places@[i] < assignments@.len(),
                    found == reached(
                        places@,
                        assignments@,
                        visited@,
                        width as int,
                        i as nat,
                    ),
                    found <= i,
            {
                let place: usize = places[i];
                if document_reached(assignments[place].as_slice(), visited, width) {
                    found = found + 1;
                }
            }
            row.push(found);
        }
        counted.push(n);
        hits.push(row);
    }
    QueryRecall { counted, hits }
}

/// Where the documents of `ids` stand; of documents with one id, the last.
fn places_by_id(ids: &[u64]) -> (map: HashMap<u64, usize>)
    ensures
        forall|id: u64| #[trigger]
            map@.contains_key(id) <==> last_place(ids@, id, ids@.len()) is Some,
        forall|id: u64| #[trigger]
            map@.contains_key(id) ==> Some(map@[id]) == last_place(ids@, id, ids@.len()),
{
    broadcast use vstd::std_specs::hash::group_hash_axioms;

    let mut map: HashMap<u64, usize> = HashMap::new();
    for i in 0..ids.len()
        invariant
            forall|id: u64| #[trigger]
                map@.contains_key(id) <==> last_place(ids@, id, i as nat) is Some,
            forall|id: u64| #[trigger]
                map@.contains_key(id) ==> Some(map@[id]) == last_place(ids@, id, i as nat),
    {
        map.insert(ids[i], i);
    }
    map
}

proof fn lemma_last_place(ids: Seq<u64>, id: u64, n: nat)
    requires
        n <= ids.len(),
        ids.len() <= usize::MAX,
    ensures
        last_place(ids, id, n) matches Some(i) ==> i < n && ids[i as int] == id,
    decreases n,
{
    if n > 0 {
        lemma_last_place(ids, id, (n - 1) as nat);
    }
}

/// The places of the known documents of one query.
fn places_of(
    map: &HashMap<u64, usize>,
    truth: &[u64],
    n: usize,
    Ghost(ids): Ghost<Seq<u64>>,
) -> (places: Vec<usize>)
    requires
        n <= truth@.len(),
        ids.len() <= usize::MAX,
        forall|id: u64| #[trigger]
            map@.contains_key(id) <==> last_place(ids, id, ids.len()) is Some,
        forall|id: u64| #[trigger]
            map@.contains_key(id) ==> Some(map@[id]) == last_place(ids, id, ids.len()),
    ensures
        places@ == known_places(ids, truth@, n as nat),
        forall|i: int| 0 <= i < places@.len() ==> #[trigger] places@[i] < ids.len(),
{
    broadcast use vstd::std_specs::hash::group_hash_axioms;

    let mut places: Vec<usize> = Vec::new();
    for i in 0..n
        invariant
            n <= truth@.len(),
            ids.len() <= usize::MAX,
            forall|id: u64| #[trigger]
                map@.contains_key(id) <==> last_place(ids, id, ids.len()) is Some,
            forall|id: u64| #[trigger]
                map@.contains_key(id) ==> Some(map@[id]) == last_place(ids, id, ids.len()),
            places@ == known_places(ids, truth@, i as nat),
            forall|m: int| 0 <= m < places@.len() ==> #[trigger] places@[m] < ids.len(),
    {
        let id: u64 = truth[i];
        proof {
            lemma_last_place(ids, id, ids.len());
        }
        match map.get(&id) {
            Some(place) => {
                places.push(*place);
            },
            None => {},
        }
    }
    places
}

/// The known true neighbours of query `q`, up to the largest cut-off.
pub open spec fn neighbours_of(
    ids: Seq<u64>,
    truth: Seq<u64>,
    recall_k: Seq<usize>,
) -> Seq<usize> {
    let max_k = largest(recall_k, recall_k.len());
    let n = if max_k <= truth.len() {
        max_k as nat
    } else {
        truth.len()
    };
    known_places(ids, truth, n)
}

/// For every query and each cut-off, how many of its true neighbours are in the
/// clusters that it visits. `top_centroids` lists for every query its nearest
/// clusters, `max_n` for each, of which it visits the numbers in `counts`.
pub fn recall_of_visited(
    doc_ids: &[u64],
    ground_truth: &[Vec<u64>],
    n_queries: usize,
    assignments: &[Vec<u32>],
    top_centroids: &[u32],
    max_n: usize,
    recall_k: &[usize],
    counts: &[usize],
) -> (r: Option<Vec<QueryRecall>>)
    requires
        n_queries > 0 && ground_truth@.len() > 0 && max_n > 0 ==> {
            &&& n_queries <= ground_truth@.len()
            &&& n_queries * max_n <= top_centroids@.len()
            &&& doc_ids@.len() <= assignments@.len()
            &&& forall|b: int| 0 <= b < counts@.len() ==> #[trigger] counts@[b] <= max_n
        },
    ensures
        r is None <==> n_queries == 0 || ground_truth@.len() == 0 || max_n == 0,
        r matches Some(all) ==> {
            &&& all@.len() == n_queries
            &&& forall|q: int|
                0 <= q < n_queries ==> is_recall_of(
                    #[trigger] all@[q],
                    neighbours_of(doc_ids@, ground_truth@[q]@, recall_k@),
                    assignments@,
                    top_centroids@.subrange(q * max_n, q * max_n + max_n),
                    recall_k@,
                    counts@,
                )
        },
{
    if n_queries == 0 || ground_truth.len() == 0 || max_n == 0 {
        return None;
    }
    let ghost ids = doc_ids@;
    let map = places_by_id(doc_ids);
    let max_k: usize = largest_of(recall_k);
    let mut all: Vec<QueryRecall> = Vec::new();
    proof {
        assert(top_centroids@.len() == top_centroids.len());
        assert(doc_ids@.len() == doc_ids.len());
    }
    for q in 0..n_queries
        invariant
            n_queries <= ground_truth@.len(),
            n_queries * max_n <= top_centroids@.len(),
            top_centroids@.len() <= usize::MAX,
            ids == doc_ids@,
            ids.len() <= usize::MAX,
            ids.len() <= assignments@.len(),
            forall|b: int| 0 <= b < counts@.len() ==> #[trigger] counts@[b] <= max_n,
            max_k == largest(recall_k@, recall_k@.len()),
            forall|id: u64| #[trigger]
                map@.contains_key(id) <==> last_place(ids, id, ids.len()) is Some,
            forall|id: u64| #[trigger]
                map@.contains_key(id) ==> Some(map@[id]) == last_place(ids, id, ids.len()),
            all@.len() == q,
            forall|m: int|
                0 <= m < q ==> is_recall_of(
                    #[trigger] all@[m],
                    neighbours_of(ids, ground_truth@[m]@, recall_k@),
                    assignments@,
                    top_centroids@.subrange(m * max_n, m * max_n + max_n),
                    recall_k@,
                    counts@,
                ),
    {
        let truth = &ground_truth[q];
        let n: usize = if max_k <= truth.len() {
            max_k
        } else {
            truth.len()
        };
        let places = places_of(&map, truth.as_slice(), n, Ghost(ids));
        proof {
            assert(0 <= q * max_n && q * max_n + max_n <= n_queries * max_n) by (nonlinear_arith)
                requires
                    0 <= q,
                    q + 1 <= n_queries,
            ;
        }
        let visited = &top_centroids[q * max_n..q * max_n + max_n];
        all.push(query_recall(&places, assignments, visited, recall_k, counts));
    }
    Some(all)
}

/// The numbers of clusters that fractions stand for.
pub open spec fn fan_outs(fractions: Seq<u32>, n_clusters: int) -> Seq<usize> {
    Seq::new(fractions.len(), |i: int| part_of(n_clusters, fractions[i]) as usize)
}

/// For every query and each cut-off, how many of its true neighbours are in the
/// clusters that it visits: of its nearest clusters as many as each fraction
/// stands for. `distance` gives the key of the distance of a query and a
/// cluster.
pub fn compute_recall<F: Fn(usize, usize) -> u32>(
    distance: &F,
    doc_ids: &[u64],
    ground_truth: &[Vec<u64>],
    n_queries: usize,
    n_clusters: usize,
    assignments: &[Vec<u32>],
    recall_k: &[usize],
    recall_n: &[u32],
) -> (r: Option<Vec<QueryRecall>>)
    requires
        n_clusters <= u32::MAX,
        n_queries > 0 && ground_truth@.len() > 0 && recall_n@.len() > 0 && n_clusters > 0 ==> {
            &&& is_function_within(*distance, n_queries as int, n_clusters as int)
            &&& n_queries <= ground_truth@.len()
            &&& n_queries * largest(fan_outs(recall_n@, n_clusters as int), recall_n@.len())
                <= usize::MAX
            &&& doc_ids@.len() <= assignments@.len()
        },
    ensures
        r is None <==> n_queries == 0 || ground_truth@.len() == 0 || recall_n@.len() == 0
            || n_clusters == 0,
        r matches Some(all) ==> {
            let counts = fan_outs(recall_n@, n_clusters as int);
            let max_n = largest(counts, counts.len()) as nat;
            &&& all@.len() == n_queries
            &&& forall|q: int|
                0 <= q < n_queries ==> is_recall_of(
                    #[trigger] all@[q],
                    neighbours_of(doc_ids@, ground_truth@[q]@, recall_k@),
                    assignments@,
                    listed_clusters(
                        k_nearest_of(*distance, n_clusters as int, q, max_n),
                        max_n,
                    ),
                    recall_k@,
                    counts,
                )
        },
{
    if n_queries == 0 || ground_truth.len() == 0 || recall_n.len() == 0 || n_clusters == 0 {
        return None;
    }
    let counts = fan_out_counts(recall_n, n_clusters);
    let max_n: usize = largest_of(&counts);
    proof {
        assert(counts@ =~= fan_outs(recall_n@, n_clusters as int));
        lemma_largest(counts@, counts@.len(), 0);
        assert forall|b: int| 0 <= b < counts@.len() implies #[trigger] counts@[b] <= max_n by {
            lemma_largest(counts@, counts@.len(), b);
        }
    }
    let mut top: Vec<u32> = vec![0u32; n_queries * max_n];
    let mut keys: Vec<u32> = vec![0u32; n_queries * max_n];
    find_k_nearest_neighbors(distance, n_queries, n_clusters, max_n, &mut top, &mut keys);
    let r = recall_of_visited(
        doc_ids,
        ground_truth,
        n_queries,
        assignments,
        &top,
        max_n,
        recall_k,
        &counts,
    );
    proof {
        assert forall|q: int| 0 <= q < n_queries implies top@.subrange(
            q * max_n,
            q * max_n + max_n,
        ) == #[trigger] listed_clusters(
            k_nearest_of(*distance, n_clusters as int, q, max_n as nat),
            max_n as nat,
        ) by {
            let list = k_nearest_of(*distance, n_clusters as int, q, max_n as nat);
            assert(row_holds(top@, keys@, q * max_n, max_n as int, list));
            assert(0 <= q * max_n && q * max_n + max_n <= n_queries * max_n) by (nonlinear_arith)
                requires
                    0 <= q,
                    q + 1 <= n_queries,
                    max_n >= 0,
            ;
            lemma_listed_row(top@, keys@, q * max_n, max_n as nat, list);
        }
    }
    r
}

/// Visiting more clusters never reaches fewer documents, and no more are
/// reached than there are.
pub proof fn law_recall_grows_with_fan_out(
    places: Seq<usize>,
    assignments: Seq<Vec<u32>>,
    visited: Seq<u32>,
    narrow: int,
    wide: int,
    n: nat,
)
    requires
        0 <= narrow <= wide,
        n <= places.len(),
    ensures
        reached(places, assignments, visited, narrow, n) <= reached(
            places,
            assignments,
            visited,
            wide,
            n,
        ) <= n,
    decreases n,
{
    if n > 0 {
        law_recall_grows_with_fan_out(places, assignments, visited, narrow, wide, (n - 1) as nat);
        let list = assignments[places[n - 1] as int]@;
        if is_reached(list, visited, narrow) {
            let (a, b) = choose|a: int, b: int|
                0 <= a < list.len() && 0 <= b < narrow && #[trigger] list[a]
                    == #[trigger] visited[b];
            assert(list[a] == visited[b]);
            assert(is_reached(list, visited, wide));
        }
    }
}

/// Copying documents into further clusters never loses one that was reached.
pub proof fn law_copies_keep_recall(
    places: Seq<usize>,
    fewer: Seq<Vec<u32>>,
    more: Seq<Vec<u32>>,
    visited: Seq<u32>,
    width: int,
    n: nat,
)
    requires
        n <= places.len(),
        forall|i: int, a: int|
            0 <= i < n && 0 <= a < fewer[places[i] as int]@.len() ==> more[places[i] as int]@.contains(
                #[trigger] fewer[places[i] as int]@[a],
            ),
    ensures
        reached(places, fewer, visited, width, n) <= reached(places, more, visited, width, n),
    decreases n,
{
    if n > 0 {
        law_copies_keep_recall(places, fewer, more, visited, width, (n - 1) as nat);
        let at = places[n - 1] as int;
        if is_reached(fewer[at]@, visited, width) {
            let (a, b) = choose|a: int, b: int|
                0 <= a < fewer[at]@.len() && 0 <= b < width && #[trigger] fewer[at]@[a]
                    == #[trigger] visited[b];
            assert(more[at]@.contains(fewer[at]@[a]));
            let c = choose|c: int| 0 <= c < more[at]@.len() && more[at]@[c] == fewer[at]@[a];
            assert(more[at]@[c] == visited[b]);
            assert(is_reached(more[at]@, visited, width));
        }
    }
}

/// Visiting every cluster reaches every document that is in one.
pub proof fn law_all_clusters_reach_all(
    places: Seq<usize>,
    assignments: Seq<Vec<u32>>,
    visited: Seq<u32>,
    width: int,
    n_clusters: u32,
    n: nat,
)
    requires
        n <= places.len(),
        0 <= width <= visited.len(),
        forall|c: u32| c < n_clusters ==> #[trigger] visited.take(width).contains(c),
        forall|i: int|
            0 <= i < n ==> {
                let list = assignments[#[trigger] places[i] as int]@;
                list.len() > 0 && list[0] < n_clusters
            },
    ensures
        reached(places, assignments, visited, width, n) == n,
    decreases n,
{
    if n > 0 {
        law_all_clusters_reach_all(
            places,
            assignments,
            visited,
            width,
            n_clusters,
            (n - 1) as nat,
        );
        let list = assignments[places[n - 1] as int]@;
        let c = list[0];
        assert(visited.take(width).contains(c));
        let b = choose|b: int| 0 <= b < width && visited.take(width)[b] == c;
        assert(list[0] == visited[b]);
        assert(is_reached(list, visited, width));
    }
}

/// Sum of `members` over single lists is `total_members`: a vector that is in
/// one cluster only is counted once.
pub open spec fn single_lists(primary: Seq<u32>, lists: Seq<Vec<u32>>) -> bool {
    &&& lists.len() == primary.len()
    &&& forall|i: int| 0 <= i < primary.len() ==> (#[trigger] lists[i])@ == seq![primary[i]]
}

/// Counting single lists gives the sizes that counting the primary clusters
/// gives.
pub proof fn law_single_lists_count_alike(primary: Seq<u32>, lists: Seq<Vec<u32>>, n: nat, c: int)
    requires
        single_lists(primary, lists),
        n <= primary.len(),
    ensures
        total_members(lists, n, c) == members(primary, n, c),
    decreases n,
{
    if n > 0 {
        law_single_lists_count_alike(primary, lists, (n - 1) as nat, c);
        let one = lists[n - 1]@;
        assert(one == seq![primary[n - 1]]);
        reveal_with_fuel(members, 3);
        assert(members(one, 1, c) == if one[0] == c {
            1nat
        } else {
            0
        });
    }
}

/// Bytes of `n` vectors of `dims` four-byte coordinates.
pub fn vector_bytes(n: u64, dims: usize) -> (r: u64)
    requires
        n * (dims * 4) <= u64::MAX,
        dims * 4 <= usize::MAX,
    ensures
        r == n * (dims * 4),
{
    n * ((dims * 4) as u64)
}

/// Rows of vectors that are compared at once: as many as keep a buffer of
/// four-byte numbers within 64 MiB, but between 64 and 32768.
pub fn decode_block_size(k: usize) -> (r: usize)
    requires
        k * 4 <= usize::MAX,
    ensures
        r == between(
            0x400_0000int / (4 * if k == 0 {
                1
            } else {
                k as int
            }),
            64,
            32768,
        ),
{
    let wide: usize = if k == 0 {
        1
    } else {
        k
    };
    let rows: usize = 0x400_0000 / (4 * wide);
    if rows < 64 {
        64
    } else if rows > 32768 {
        32768
    } else {
        rows
    }
}

/// The largest of some numbers is one of them, and none is larger.
pub proof fn law_largest_is_largest(counts: Seq<usize>, n: nat)
    requires
        n <= counts.len(),
    ensures
        forall|i: int| 0 <= i < n ==> #[trigger] counts[i] <= largest(counts, n),
        n == 0 ==> largest(counts, n) == 0,
        n > 0 ==> exists|i: int| 0 <= i < n && #[trigger] counts[i] == largest(counts, n),
    decreases n,
{
    if n > 0 {
        law_largest_is_largest(counts, (n - 1) as nat);
        assert(counts[n - 1] <= largest(counts, n));
        if largest(counts, n) != counts[n - 1] {
            if n == 1 {
                assert(counts[0] == largest(counts, n));
            } else {
                let i = choose|i: int|
                    0 <= i < n - 1 && #[trigger] counts[i] == largest(counts, (n - 1) as nat);
                assert(counts[i] == largest(counts, n));
            }
        }
    }
}

/// The place of a document is the last one that has its number; without one the
/// document is not known.
pub proof fn law_place_is_the_last(ids: Seq<u64>, id: u64, n: nat)
    requires
        n <= ids.len() <= usize::MAX,
    ensures
        last_place(ids, id, n) is None <==> !(exists|i: int|
            0 <= i < n && #[trigger] ids[i] == id),
        last_place(ids, id, n) matches Some(p) ==> p < n && ids[p as int] == id && forall|i: int|
            p < i < n ==> #[trigger] ids[i] != id,
    decreases n,
{
    if n > 0 {
        law_place_is_the_last(ids, id, (n - 1) as nat);
        if ids[n - 1] != id && exists|i: int| 0 <= i < n && #[trigger] ids[i] == id {
            let i = choose|i: int| 0 <= i < n && #[trigger] ids[i] == id;
            assert(i < n - 1);
        }
    }
}

/// The known places are those of the documents of the truth that have one, in
/// the order of the truth.
pub proof fn law_known_places_follow_the_truth(ids: Seq<u64>, truth: Seq<u64>, n: nat)
    requires
        n <= truth.len(),
        ids.len() <= usize::MAX,
    ensures
        ({
            let with = crate::arith::places(
                n,
                |i: int| exists|j: int| 0 <= j < ids.len() && #[trigger] ids[j] == truth[i],
            );
            let known = known_places(ids, truth, n);
            &&& known.len() == with.len()
            &&& forall|t: int|
                0 <= t < known.len() ==> #[trigger] known[t] < ids.len() && ids[known[t] as int]
                    == truth[with[t]]
        }),
    decreases n,
{
    let p = |i: int| exists|j: int| 0 <= j < ids.len() && #[trigger] ids[j] == truth[i];
    if n > 0 {
        law_known_places_follow_the_truth(ids, truth, (n - 1) as nat);
        law_place_is_the_last(ids, truth[n - 1], ids.len());
        lemma_places_step((n - 1) as nat, p);
    } else {
        lemma_places_step(0, p);
    }
}

/// The reached documents are counted one by one: those with a cluster among the
/// first `width` visited ones.
pub proof fn law_reached_documents_are_counted(
    known: Seq<usize>,
    assignments: Seq<Vec<u32>>,
    visited: Seq<u32>,
    width: int,
    n: nat,
)
    ensures
        reached(known, assignments, visited, width, n) == crate::arith::places(
            n,
            |i: int|
                exists|a: int, b: int|
                    0 <= a < assignments[known[i] as int]@.len() && 0 <= b < width
                        && #[trigger] assignments[known[i] as int]@[a] == #[trigger] visited[b],
        ).len(),
    decreases n,
{
    let p = |i: int|
        exists|a: int, b: int|
            0 <= a < assignments[known[i] as int]@.len() && 0 <= b < width
                && #[trigger] assignments[known[i] as int]@[a] == #[trigger] visited[b];
    if n > 0 {
        law_reached_documents_are_counted(known, assignments, visited, width, (n - 1) as nat);
        lemma_places_step((n - 1) as nat, p);
        assert(p(n - 1) == is_reached(assignments[known[n - 1] as int]@, visited, width));
    } else {
        lemma_places_step(0, p);
    }
}

/// A part is at least one and at most all, and grows to all with the fraction.
pub proof fn law_part_is_one_to_all(n: int, fraction: u32)
    requires
        n > 0,
    ensures
        1 <= part_of(n, fraction) <= n,
        WHOLE_BITS <= fraction <= 0x7f80_0000 ==> part_of(n, fraction) == n,
        fraction > 0x7f80_0000 ==> part_of(n, fraction) == 1,
        fraction < WHOLE_BITS && 1 <= share_nearest(n as nat, fraction) <= n ==> part_of(
            n,
            fraction,
        ) == share_nearest(n as nat, fraction),
{
}

/// As many documents count as are known, up to the cut-off.
pub proof fn law_counted_is_the_lesser(known: nat, k: usize)
    ensures
        counted_for(known, k) <= known,
        counted_for(known, k) <= k,
        counted_for(known, k) == known || counted_for(known, k) == k,
{
}

} // verus!
