//! Nearest centroids of many points, a batch of centroids at a time.
//!
//! Distances are integer keys that are ordered as the distances they stand
//! for. What the distance of a point and a centroid is, is left to a function
//! that the caller gives; a distance that comes out below zero, by rounding, is
//! kept as zero.
use vstd::prelude::*;
use crate::arith::div_ceil;
use crate::functions::{
    is_function_up_to, is_function_within, is_lookup_within, is_slice_function2, value_of2,
    value_on2,
};
use crate::kmeans::superkmeans::common::{KnnCandidate, MAX_KEY, Y_BATCH_SIZE, ZERO_KEY};
use crate::kmeans::superkmeans::layout::{
    block_rows, lemma_split, vertical_part, IndexPdxIvf,
};
use crate::kmeans::superkmeans::pdxearch::{top1_partial_search, MatrixSearch};
use crate::ranking::{is_stable_order, lemma_order_of, order_of, stable_order};

verus! {

/// End of the batch of centroids that starts at `j`.
pub open spec fn batch_end(n_y: int, j: int) -> int {
    if j + 1024 <= n_y {
        j + 1024
    } else {
        n_y
    }
}

/// A distance key as it is kept: not below zero.
pub open spec fn clamped(key: u32) -> u32 {
    if key < ZERO_KEY {
        ZERO_KEY
    } else {
        key
    }
}

/// The first nearest of the centroids from `lo` to `hi`; none is nearer than
/// the largest key.
pub open spec fn first_nearest(dist: spec_fn(int) -> u32, lo: int, hi: int) -> KnnCandidate
    decreases hi - lo,
{
    if hi <= lo {
        KnnCandidate { index: lo as u32, distance: MAX_KEY }
    } else {
        let best = first_nearest(dist, lo, hi - 1);
        if dist(hi - 1) < best.distance {
            KnnCandidate { index: (hi - 1) as u32, distance: dist(hi - 1) }
        } else {
            best
        }
    }
}

/// The nearest centroid of a point after `b` batches of `n_y` centroids: the
/// nearest of a batch takes over when it is nearer than what is kept.
pub open spec fn nearest_after(
    dist: spec_fn(int) -> u32,
    n_y: int,
    from: KnnCandidate,
    b: nat,
) -> KnnCandidate
    decreases b,
{
    if b == 0 {
        from
    } else {
        let best = nearest_after(dist, n_y, from, (b - 1) as nat);
        let lo = 1024 * (b - 1);
        let found = first_nearest(dist, lo, batch_end(n_y, lo));
        if found.distance < best.distance {
            KnnCandidate { index: found.index, distance: clamped(found.distance) }
        } else {
            best
        }
    }
}

/// Batches that `n_y` centroids make up.
pub open spec fn batches(n_y: int) -> nat {
    ((n_y + 1023) / 1024) as nat
}

/// The nearest centroid of point `i`, whose nearest was `known` before.
pub open spec fn nearest_of<F: Fn(usize, usize) -> u32>(
    distance: F,
    n_y: int,
    i: int,
    known: u32,
) -> KnnCandidate {
    nearest_after(
        |j: int| value_of2(distance, i as usize, j as usize),
        n_y,
        KnnCandidate { index: known, distance: MAX_KEY },
        batches(n_y),
    )
}

/// Finds the nearest of `n_y` centroids for each of `n_x` points. A point that
/// has none nearer than the largest key keeps its entry in `out_knn`.
pub fn find_nearest_neighbor<F: Fn(usize, usize) -> u32>(
    distance: &F,
    n_x: usize,
    n_y: usize,
    out_knn: &mut [u32],
    out_distances: &mut [u32],
)
    requires
        is_function_within(*distance, n_x as int, n_y as int),
        n_y <= u32::MAX,
        n_x <= old(out_knn)@.len(),
        n_x <= old(out_distances)@.len(),
    ensures
        final(out_knn)@.len() == old(out_knn)@.len(),
        final(out_distances)@.len() == old(out_distances)@.len(),
        forall|i: int|
            0 <= i < n_x ==> #[trigger] final(out_knn)@[i] == nearest_of(
                *distance,
                n_y as int,
                i,
                old(out_knn)@[i],
            ).index,
        forall|i: int|
            0 <= i < n_x ==> #[trigger] final(out_distances)@[i] == nearest_of(
                *distance,
                n_y as int,
                i,
                old(out_knn)@[i],
            ).distance,
        forall|i: int|
            n_x <= i < old(out_knn)@.len() ==> #[trigger] final(out_knn)@[i] == old(out_knn)@[i],
        forall|i: int|
            n_x <= i < old(out_distances)@.len() ==> #[trigger] final(out_distances)@[i]
                == MAX_KEY,
{
    let ghost before = out_knn@;
    let len: usize = out_distances.len();
    for i in 0..len
        invariant
            len == out_distances@.len(),
            forall|m: int| 0 <= m < i ==> #[trigger] out_distances@[m] == MAX_KEY,
    {
        out_distances[i] = MAX_KEY;
    }
    for i in 0..n_x
        invariant
            is_function_within(*distance, n_x as int, n_y as int),
            n_y <= u32::MAX,
            n_x <= before.len(),
            n_x <= len,
            out_knn@.len() == before.len(),
            out_distances@.len() == len,
            forall|m: int|
                0 <= m < i ==> #[trigger] out_knn@[m] == nearest_of(
                    *distance,
                    n_y as int,
                    m,
                    before[m],
                ).index,
            forall|m: int|
                0 <= m < i ==> #[trigger] out_distances@[m] == nearest_of(
                    *distance,
                    n_y as int,
                    m,
                    before[m],
                ).distance,
            forall|m: int| i <= m < before.len() ==> #[trigger] out_knn@[m] == before[m],
            forall|m: int| i <= m < len ==> #[trigger] out_distances@[m] == MAX_KEY,
    {
        let ghost dist = |j: int| value_of2(*distance, i, j as usize);
        let ghost from = KnnCandidate { index: before[i as int], distance: MAX_KEY };
        let mut best = KnnCandidate { index: out_knn[i], distance: MAX_KEY };
        let mut j: usize = 0;
        let ghost mut b: nat = 0;
        while j < n_y
            invariant
                i < n_x,
                is_function_within(*distance, n_x as int, n_y as int),
                n_y <= u32::MAX,
                dist == (|j: int| value_of2(*distance, i, j as usize)),
                b <= batches(n_y as int),
                j == if 1024 * b <= n_y {
                    1024 * b as int
                } else {
                    n_y as int
                },
                j == n_y ==> b == batches(n_y as int),
                best == nearest_after(dist, n_y as int, from, b),
            decreases n_y - j,
        {
            let end: usize = if Y_BATCH_SIZE <= n_y - j {
                j + Y_BATCH_SIZE
            } else {
                n_y
            };
            let mut found = KnnCandidate { index: j as u32, distance: MAX_KEY };
            for c in j..end
                invariant
                    is_function_within(*distance, n_x as int, n_y as int),
                    dist == (|j: int| value_of2(*distance, i, j as usize)),
                    i < n_x,
                    j <= c <= end <= n_y,
                    n_y <= u32::MAX,
                    found == first_nearest(dist, j as int, c as int),
            {
                let d: u32 = distance(i, c);
                proof {
                    assert(d == dist(c as int));
                }
                if d < found.distance {
                    found = KnnCandidate { index: c as u32, distance: d };
                }
            }
            if found.distance < best.distance {
                let kept: u32 = if found.distance < ZERO_KEY {
                    ZERO_KEY
                } else {
                    found.distance
                };
                best = KnnCandidate { index: found.index, distance: kept };
            }
            j = end;
            proof {
                b = b + 1;
            }
        }
        out_knn[i] = best.index;
        out_distances[i] = best.distance;
    }
}

/// A kept neighbour: the key of its distance, and its number.
pub type Neighbour = (u32, u32);

/// The keys of a list of neighbours.
pub open spec fn neighbour_keys(list: Seq<Neighbour>) -> Seq<u64> {
    Seq::new(list.len(), |t: int| list[t].0 as u64)
}

/// A list by rising key; neighbours of one key keep their order.
pub open spec fn sorted_list(list: Seq<Neighbour>) -> Seq<Neighbour> {
    Seq::new(list.len(), |t: int| list[order_of(neighbour_keys(list))[t] as int])
}

/// The distances of the centroids from `lo` to `hi`, with their numbers.
pub open spec fn batch_list(dist: spec_fn(int) -> u32, lo: int, hi: int) -> Seq<Neighbour> {
    Seq::new((hi - lo) as nat, |t: int| (dist(lo + t), (lo + t) as u32))
}

/// The first `k` of a list, their distances as they are kept.
pub open spec fn kept_list(list: Seq<Neighbour>, k: nat) -> Seq<Neighbour> {
    let n = if list.len() < k {
        list.len()
    } else {
        k
    };
    Seq::new(n, |t: int| (clamped(list[t].0), list[t].1))
}

/// The entries of a list whose key is below the largest one.
pub open spec fn known_part(list: Seq<Neighbour>) -> Seq<Neighbour>
    decreases list.len(),
{
    if list.len() == 0 {
        list
    } else if list.last().0 < MAX_KEY {
        known_part(list.drop_last()).push(list.last())
    } else {
        known_part(list.drop_last())
    }
}

/// The `k` nearest centroids after `b` batches.
pub open spec fn k_nearest_after(
    dist: spec_fn(int) -> u32,
    n_y: int,
    k: nat,
    b: nat,
) -> Seq<Neighbour>
    decreases b,
{
    if b == 0 {
        Seq::empty()
    } else {
        let known = known_part(k_nearest_after(dist, n_y, k, (b - 1) as nat));
        let lo = 1024 * (b - 1);
        kept_list(sorted_list(known + batch_list(dist, lo, batch_end(n_y, lo))), k)
    }
}

/// One row of results: the neighbours, and the largest key and number where
/// there are fewer than `k`.
pub open spec fn row_holds(
    knn: Seq<u32>,
    distances: Seq<u32>,
    at: int,
    k: int,
    list: Seq<Neighbour>,
) -> bool {
    &&& list.len() <= k
    &&& forall|t: int|
        0 <= t < k ==> #[trigger] knn[at + t] == if t < list.len() {
            list[t].1
        } else {
            u32::MAX
        }
    &&& forall|t: int|
        0 <= t < k ==> #[trigger] distances[at + t] == if t < list.len() {
            list[t].0
        } else {
            MAX_KEY
        }
}

/// The `k` nearest centroids of point `i`.
pub open spec fn k_nearest_of<F: Fn(usize, usize) -> u32>(
    distance: F,
    n_y: int,
    i: int,
    k: nat,
) -> Seq<Neighbour> {
    k_nearest_after(
        |j: int| value_of2(distance, i as usize, j as usize),
        n_y,
        k,
        batches(n_y),
    )
}

fn sort_list(list: &Vec<Neighbour>) -> (r: Vec<Neighbour>)
    ensures
        r@ == sorted_list(list@),
{
    let mut keys: Vec<u64> = Vec::new();
    for t in 0..list.len()
        invariant
            keys@.len() == t,
            forall|m: int| 0 <= m < t ==> #[trigger] keys@[m] == list@[m].0,
    {
        keys.push(list[t].0 as u64);
    }
    let order = stable_order(&keys);
    let mut r: Vec<Neighbour> = Vec::new();
    for t in 0..list.len()
        invariant
            keys@.len() == list@.len(),
            is_stable_order(keys@, order@),
            r@.len() == t,
            forall|m: int| 0 <= m < t ==> #[trigger] r@[m] == list@[order@[m] as int],
    {
        r.push(list[order[t]]);
    }
    proof {
        assert(keys@ =~= neighbour_keys(list@));
        lemma_order_of(keys@, order@);
        assert(r@ =~= sorted_list(list@));
    }
    r
}

fn keep_known(list: &Vec<Neighbour>) -> (r: Vec<Neighbour>)
    ensures
        r@ == known_part(list@),
{
    let mut r: Vec<Neighbour> = Vec::new();
    proof {
        assert(list@.take(0) =~= Seq::<Neighbour>::empty());
    }
    for t in 0..list.len()
        invariant
            r@ == known_part(list@.take(t as int)),
    {
        proof {
            let longer = list@.take(t + 1);
            assert(longer.drop_last() =~= list@.take(t as int));
            assert(longer.last() == list@[t as int]);
        }
        if list[t].0 < MAX_KEY {
            r.push(list[t]);
        }
    }
    proof {
        assert(list@.take(list@.len() as int) =~= list@);
    }
    r
}

/// The `k` nearest of `n_y` centroids of point `i`.
fn k_nearest<F: Fn(usize, usize) -> u32>(
    distance: &F,
    n_y: usize,
    i: usize,
    k: usize,
) -> (best: Vec<Neighbour>)
    requires
        is_function_within(*distance, i + 1, n_y as int),
        n_y <= u32::MAX,
    ensures
        best@ == k_nearest_of(*distance, n_y as int, i as int, k as nat),
        best@.len() <= k,
{
    let ghost dist = |j: int| value_of2(*distance, i, j as usize);
    let mut best: Vec<Neighbour> = Vec::new();
    let mut j: usize = 0;
    let ghost mut b: nat = 0;
    while j < n_y
        invariant
            is_function_within(*distance, i + 1, n_y as int),
            n_y <= u32::MAX,
            dist == (|j: int| value_of2(*distance, i, j as usize)),
            b <= batches(n_y as int),
            j == if 1024 * b <= n_y {
                1024 * b as int
            } else {
                n_y as int
            },
            j == n_y ==> b == batches(n_y as int),
            best@ == k_nearest_after(dist, n_y as int, k as nat, b),
            best@.len() <= k,
        decreases n_y - j,
    {
        let end: usize = if Y_BATCH_SIZE <= n_y - j {
            j + Y_BATCH_SIZE
        } else {
            n_y
        };
        let mut list = keep_known(&best);
        let ghost known = list@;
        for c in j..end
            invariant
                is_function_within(*distance, i + 1, n_y as int),
                dist == (|j: int| value_of2(*distance, i, j as usize)),
                j <= c <= end <= n_y,
                n_y <= u32::MAX,
                list@ == known + batch_list(dist, j as int, c as int),
        {
            let d: u32 = distance(i, c);
            list.push((d, c as u32));
            proof {
                assert(d == dist(c as int));
                assert(list@ =~= known + batch_list(dist, j as int, c + 1));
            }
        }
        let sorted = sort_list(&list);
        let n: usize = if sorted.len() < k {
            sorted.len()
        } else {
            k
        };
        let mut next: Vec<Neighbour> = Vec::new();
        for t in 0..n
            invariant
                n <= sorted@.len(),
                next@.len() == t,
                forall|m: int|
                    0 <= m < t ==> #[trigger] next@[m] == (clamped(sorted@[m].0), sorted@[m].1),
        {
            let (d, c) = sorted[t];
            let kept: u32 = if d < ZERO_KEY {
                ZERO_KEY
            } else {
                d
            };
            next.push((kept, c));
        }
        proof {
            assert(next@ =~= kept_list(sorted@, k as nat));
            b = b + 1;
        }
        best = next;
        j = end;
    }
    best
}

/// Finds the `k` nearest of `n_y` centroids for each of `n_x` points, nearest
/// first.
pub fn find_k_nearest_neighbors<F: Fn(usize, usize) -> u32>(
    distance: &F,
    n_x: usize,
    n_y: usize,
    k: usize,
    out_knn: &mut [u32],
    out_distances: &mut [u32],
)
    requires
        is_function_within(*distance, n_x as int, n_y as int),
        n_y <= u32::MAX,
        old(out_knn)@.len() == n_x * k,
        old(out_distances)@.len() == n_x * k,
    ensures
        final(out_knn)@.len() == n_x * k,
        final(out_distances)@.len() == n_x * k,
        forall|i: int|
            0 <= i < n_x ==> #[trigger] row_holds(
                final(out_knn)@,
                final(out_distances)@,
                i * k,
                k as int,
                k_nearest_of(*distance, n_y as int, i, k as nat),
            ),
{
    proof {
        assert(out_knn@.len() == out_knn.len());
    }
    for i in 0..n_x
        invariant
            is_function_within(*distance, n_x as int, n_y as int),
            n_y <= u32::MAX,
            n_x * k <= usize::MAX,
            out_knn@.len() == n_x * k,
            out_distances@.len() == n_x * k,
            forall|m: int|
                0 <= m < i ==> #[trigger] row_holds(
                    out_knn@,
                    out_distances@,
                    m * k,
                    k as int,
                    k_nearest_of(*distance, n_y as int, m, k as nat),
                ),
    {
        let best = k_nearest(distance, n_y, i, k);
        let ghost list = best@;
        let ghost knn0 = out_knn@;
        let ghost dist0 = out_distances@;
        proof {
            assert(0 <= i * k && i * k + k <= n_x * k) by (nonlinear_arith)
                requires
                    0 <= i,
                    i + 1 <= n_x,
            ;
        }
        let base: usize = i * k;
        for t in 0..k
            invariant
                base == i * k,
                base + k <= n_x * k,
                n_x * k <= usize::MAX,
                list == best@,
                list.len() <= k,
                knn0.len() == n_x * k,
                dist0.len() == n_x * k,
                out_knn@.len() == n_x * k,
                out_distances@.len() == n_x * k,
                forall|p: int| 0 <= p < base ==> #[trigger] out_knn@[p] == knn0[p],
                forall|p: int| 0 <= p < base ==> #[trigger] out_distances@[p] == dist0[p],
                forall|u: int|
                    0 <= u < t ==> #[trigger] out_knn@[base + u] == if u < list.len() {
                        list[u].1
                    } else {
                        u32::MAX
                    },
                forall|u: int|
                    0 <= u < t ==> #[trigger] out_distances@[base + u] == if u < list.len() {
                        list[u].0
                    } else {
                        MAX_KEY
                    },
        {
            if t < best.len() {
                out_distances[base + t] = best[t].0;
                out_knn[base + t] = best[t].1;
            } else {
                out_distances[base + t] = MAX_KEY;
                out_knn[base + t] = u32::MAX;
            }
        }
        proof {
            assert forall|m: int| 0 <= m < i + 1 implies #[trigger] row_holds(
                out_knn@,
                out_distances@,
                m * k,
                k as int,
                k_nearest_of(*distance, n_y as int, m, k as nat),
            ) by {
                if m < i {
                    let other = k_nearest_of(*distance, n_y as int, m, k as nat);
                    assert(row_holds(knn0, dist0, m * k, k as int, other));
                    assert(m * k + k <= i * k && 0 <= m * k) by (nonlinear_arith)
                        requires
                            0 <= m,
                            m + 1 <= i,
                    ;
                    assert forall|t: int| 0 <= t < k implies #[trigger] out_knn@[m * k + t]
                        == knn0[m * k + t] by {}
                    assert forall|t: int| 0 <= t < k implies #[trigger] out_distances@[m * k + t]
                        == dist0[m * k + t] by {}
                } else {
                    assert((i as int) as usize == i);
                }
            }
        }
    }
}

/// The centroids in the blocked layout, with their vertical dimensions row by
/// row.
pub struct PdxCentroidsRef<'a, T> {
    pub index: &'a IndexPdxIvf,
    pub pdx_data: &'a [T],
    pub pdx_indices: &'a [u32],
    pub aux: &'a [T],
}

impl<'a, T> PdxCentroidsRef<'a, T> {
    /// The buffers hold `n_y` centroids of `d` dimensions.
    pub open spec fn wf(self, n_y: int, d: int) -> bool {
        &&& 0 < d <= u32::MAX
        &&& n_y <= u32::MAX
        &&& self.index.describes(n_y, d)
        &&& self.pdx_indices@.len() == n_y
        &&& self.pdx_data@.len() == n_y * d
        &&& self.aux@.len() == n_y * vertical_part(d as nat)
    }
}

/// What is known of a point during a pruned search: its nearest centroid, and
/// how many centroids passed the first test.
pub struct PrunedState {
    pub best: KnnCandidate,
    pub tested: nat,
}

/// A pruned search of many points: the functions and buffers it works with.
#[verifier::reject_recursive_types(T)]
pub struct PrunedSearch<T> {
    pub x: Seq<T>,
    pub pdx_data: Seq<T>,
    pub pdx_indices: Seq<u32>,
    pub aux: Seq<T>,
    pub n_y: nat,
    pub d: nat,
    pub until: int,
    pub partial: spec_fn(int, int) -> u32,
    pub full: spec_fn(int, u32) -> u32,
    pub extend: spec_fn(u32, Seq<T>, Seq<T>) -> u32,
    pub thr: spec_fn(u32, u32) -> u32,
}

/// The pruned search of the points `x`, with given functions.
pub open spec fn pruned_search<
    T,
    P: Fn(usize, usize) -> u32,
    Q: Fn(usize, u32) -> u32,
    A: Fn(u32, &[T], &[T]) -> u32,
    H: Fn(u32, u32) -> u32,
>(
    x: Seq<T>,
    pdx_data: Seq<T>,
    pdx_indices: Seq<u32>,
    aux: Seq<T>,
    n_y: nat,
    d: nat,
    until: int,
    partial: P,
    full: Q,
    extend: A,
    threshold: H,
) -> PrunedSearch<T> {
    PrunedSearch {
        x,
        pdx_data,
        pdx_indices,
        aux,
        n_y,
        d,
        until,
        partial: |i: int, j: int| value_of2(partial, i as usize, j as usize),
        full: |i: int, c: u32| value_of2(full, i as usize, c),
        extend: |a: u32, p: Seq<T>, q: Seq<T>| value_on2(extend, a, p, q),
        thr: |a: u32, b: u32| value_of2(threshold, a, b),
    }
}

impl<T> PrunedSearch<T> {
    /// The search for point `i`.
    pub open spec fn point(self, i: int) -> MatrixSearch<T> {
        MatrixSearch {
            query: self.x.subrange(i * self.d, i * self.d + self.d),
            pdx_data: self.pdx_data,
            pdx_indices: self.pdx_indices,
            aux: self.aux,
            rows: self.pdx_indices.len(),
            dims: self.d,
            until: self.until,
            extend: self.extend,
            thr: self.thr,
        }
    }

    /// The partial distances of point `i` to the centroids of block `c`.
    pub open spec fn partial_row(self, i: int, c: int) -> Seq<u32> {
        Seq::new(
            block_rows(self.pdx_indices.len() as int, c) as nat,
            |t: int| (self.partial)(i, 1024 * c + t),
        )
    }

    /// What is known of point `i` after `b` batches. The first batch starts
    /// from the distance to the centroid that was nearest before.
    pub open spec fn after(self, i: int, known: KnnCandidate, b: nat) -> PrunedState
        decreases b,
    {
        if b == 0 {
            PrunedState { best: known, tested: 0 }
        } else {
            let prev = self.after(i, known, (b - 1) as nat);
            let from = KnnCandidate {
                index: prev.best.index,
                distance: if b == 1 {
                    (self.full)(i, prev.best.index)
                } else {
                    prev.best.distance
                },
            };
            let s = self.point(i);
            let row = self.partial_row(i, b - 1);
            PrunedState {
                best: s.best(from, prev.best.index, row, b - 1, b as int),
                tested: prev.tested + s.tested(from, prev.best.index, row, b - 1, b as int),
            }
        }
    }
}

impl<T> PrunedSearch<T> {
    /// The nearest centroid that the search finds for point `i`, started from
    /// `known`.
    pub open spec fn found(self, i: int, known: KnnCandidate) -> KnnCandidate {
        self.after(i, known, batches(self.n_y as int)).best
    }

    /// The results of point `i` are those of the search, started from what was
    /// known before; its count has grown by the centroids that passed the first
    /// test.
    pub open spec fn point_done(
        self,
        i: int,
        knn0: Seq<u32>,
        dist0: Seq<u32>,
        counts0: Seq<usize>,
        knn: Seq<u32>,
        dist: Seq<u32>,
        counts: Seq<usize>,
    ) -> bool {
        let known = KnnCandidate { index: knn0[i], distance: dist0[i] };
        let end = self.after(i, known, batches(self.n_y as int));
        &&& knn[i] == end.best.index
        &&& dist[i] == end.best.distance
        &&& counts[i] == counts0[i] + end.tested
    }
}

/// Finds the nearest of the first `n_y` centroids for each of `n_x` points, from
/// the nearest that are known, which may be any of the centroids. Centroids are
/// taken in whole blocks: `n_y` is the number of all of them, or of those in
/// some first full blocks. `partial` gives the distance over the first
/// `partial_d` dimensions, `full` that to a known centroid.
pub fn find_nearest_neighbor_with_pruning<
    T: Copy,
    P: Fn(usize, usize) -> u32,
    Q: Fn(usize, u32) -> u32,
    A: Fn(u32, &[T], &[T]) -> u32,
    H: Fn(u32, u32) -> u32,
>(
    x: &[T],
    n_x: usize,
    n_y: usize,
    d: usize,
    out_knn: &mut [u32],
    out_distances: &mut [u32],
    centroids: &PdxCentroidsRef<T>,
    partial_d: u32,
    out_not_pruned_counts: &mut [usize],
    partial: &P,
    full: &Q,
    extend: &A,
    threshold: &H,
)
    requires
        is_function_within(*partial, n_x as int, n_y as int),
        is_lookup_within(*full, n_x as int, centroids.pdx_indices@.len() as int),
        is_slice_function2(*extend),
        is_function_up_to(*threshold, d as int),
        centroids.wf(centroids.pdx_indices@.len() as int, d as int),
        n_y <= centroids.pdx_indices@.len(),
        n_y == centroids.pdx_indices@.len() || n_y % 1024 == 0,
        x@.len() == n_x * d,
        partial_d <= vertical_part(d as nat),
        n_x <= old(out_knn)@.len(),
        n_x <= old(out_distances)@.len(),
        n_x <= old(out_not_pruned_counts)@.len(),
        n_y > 0 ==> forall|i: int|
            0 <= i < n_x ==> #[trigger] old(out_knn)@[i] < centroids.pdx_indices@.len(),
        forall|i: int|
            0 <= i < n_x ==> #[trigger] old(out_not_pruned_counts)@[i] + 1024 * batches(n_y as int)
                <= usize::MAX,
    ensures
        ({
            let s = pruned_search(
                x@,
                centroids.pdx_data@,
                centroids.pdx_indices@,
                centroids.aux@,
                n_y as nat,
                d as nat,
                partial_d as int,
                *partial,
                *full,
                *extend,
                *threshold,
            );
            &&& final(out_knn)@.len() == old(out_knn)@.len()
            &&& final(out_distances)@.len() == old(out_distances)@.len()
            &&& final(out_not_pruned_counts)@.len() == old(out_not_pruned_counts)@.len()
            &&& forall|i: int|
                n_x <= i < old(out_knn)@.len() ==> #[trigger] final(out_knn)@[i] == old(out_knn)@[i]
            &&& forall|i: int|
                n_x <= i < old(out_distances)@.len() ==> #[trigger] final(out_distances)@[i]
                    == old(out_distances)@[i]
            &&& forall|i: int|
                n_x <= i < old(out_not_pruned_counts)@.len() ==> #[trigger] final(
                    out_not_pruned_counts)@[i] == old(out_not_pruned_counts)@[i]
            &&& forall|i: int|
                0 <= i < n_x ==> #[trigger] s.point_done(
                    i,
                    old(out_knn)@,
                    old(out_distances)@,
                    old(out_not_pruned_counts)@,
                    final(out_knn)@,
                    final(out_distances)@,
                    final(out_not_pruned_counts)@,
                )
        }),
{
    let ghost s = pruned_search(
        x@,
        centroids.pdx_data@,
        centroids.pdx_indices@,
        centroids.aux@,
        n_y as nat,
        d as nat,
        partial_d as int,
        *partial,
        *full,
        *extend,
        *threshold,
    );
    let ghost knn0 = out_knn@;
    let ghost dist0 = out_distances@;
    let ghost counts0 = out_not_pruned_counts@;
    let ghost nb = batches(n_y as int);
    proof {
        lemma_split(d as nat);
        assert(x@.len() == x.len());
    }
    for i in 0..n_x
        invariant
            s == pruned_search(
                x@,
                centroids.pdx_data@,
                centroids.pdx_indices@,
                centroids.aux@,
                n_y as nat,
                d as nat,
                partial_d as int,
                *partial,
                *full,
                *extend,
                *threshold,
            ),
            is_function_within(*partial, n_x as int, n_y as int),
            is_lookup_within(*full, n_x as int, centroids.pdx_indices@.len() as int),
            is_slice_function2(*extend),
            is_function_up_to(*threshold, d as int),
            centroids.wf(centroids.pdx_indices@.len() as int, d as int),
            n_y <= centroids.pdx_indices@.len(),
            n_y == centroids.pdx_indices@.len() || n_y % 1024 == 0,
            x@.len() == n_x * d,
            x@.len() <= usize::MAX,
            partial_d <= vertical_part(d as nat),
            nb == batches(n_y as int),
            n_x <= knn0.len(),
            n_x <= dist0.len(),
            n_x <= counts0.len(),
            n_y > 0 ==> forall|i: int|
                0 <= i < n_x ==> #[trigger] knn0[i] < centroids.pdx_indices@.len(),
            out_knn@.len() == knn0.len(),
            out_distances@.len() == dist0.len(),
            out_not_pruned_counts@.len() == counts0.len(),
            forall|i: int|
                0 <= i < n_x ==> #[trigger] counts0[i] + 1024 * nb <= usize::MAX,
            forall|m: int|
                0 <= m < i ==> #[trigger] s.point_done(
                    m,
                    knn0,
                    dist0,
                    counts0,
                    out_knn@,
                    out_distances@,
                    out_not_pruned_counts@,
                ),
            forall|m: int| i <= m < knn0.len() ==> #[trigger] out_knn@[m] == knn0[m],
            forall|m: int| i <= m < dist0.len() ==> #[trigger] out_distances@[m] == dist0[m],
            forall|m: int|
                i <= m < counts0.len() ==> #[trigger] out_not_pruned_counts@[m] == counts0[m],
    {
        let ghost known = KnnCandidate { index: knn0[i as int], distance: dist0[i as int] };
        proof {
            assert(0 <= i * d && i * d + d <= n_x * d) by (nonlinear_arith)
                requires
                    0 <= i,
                    i + 1 <= n_x,
            ;
        }
        let query = &x[i * d..i * d + d];
        let mut best = KnnCandidate { index: out_knn[i], distance: out_distances[i] };
        let mut tested: usize = 0;
        let n_blocks: usize = div_ceil(n_y, Y_BATCH_SIZE);
        for c in 0..n_blocks
            invariant
                s == pruned_search(
                    x@,
                    centroids.pdx_data@,
                    centroids.pdx_indices@,
                    centroids.aux@,
                    n_y as nat,
                    d as nat,
                    partial_d as int,
                    *partial,
                    *full,
                    *extend,
                    *threshold,
                ),
                is_function_within(*partial, n_x as int, n_y as int),
                is_lookup_within(*full, n_x as int, centroids.pdx_indices@.len() as int),
                is_slice_function2(*extend),
                is_function_up_to(*threshold, d as int),
                centroids.wf(centroids.pdx_indices@.len() as int, d as int),
                n_y <= centroids.pdx_indices@.len(),
                n_y == centroids.pdx_indices@.len() || n_y % 1024 == 0,
                partial_d <= vertical_part(d as nat),
                query@ == x@.subrange(i * d, i * d + d),
                query@.len() == d,
                n_blocks <= centroids.index.clusters@.len(),
                nb == batches(n_y as int),
                n_blocks == nb,
                counts0[i as int] + 1024 * nb <= usize::MAX,
                i < n_x,
                n_y > 0 ==> known.index < centroids.pdx_indices@.len(),
                best == s.after(i as int, known, c as nat).best,
                tested == s.after(i as int, known, c as nat).tested,
                tested <= 1024 * c,
        {
            let ghost rows = n_y as int;
            let j: usize = 1024 * c;
            let n: usize = centroids.index.clusters[c].num_embeddings as usize;
            let mut row: Vec<u32> = Vec::new();
            for t in 0..n
                invariant
                    i < n_x,
                    is_function_within(*partial, n_x as int, n_y as int),
                    s.partial == (|i: int, j: int| value_of2(*partial, i as usize, j as usize)),
                    j == 1024 * c,
                    j + n <= n_y,
                    row@.len() == t,
                    forall|u: int|
                        0 <= u < t ==> #[trigger] row@[u] == (s.partial)(i as int, 1024 * c + u),
            {
                let p: u32 = partial(i, j + t);
                proof {
                    assert(p == (s.partial)(i as int, 1024 * c + t));
                }
                row.push(p);
            }
            proof {
                assert(row@ =~= s.partial_row(i as int, c as int));
            }
            let start: u32 = if c == 0 {
                full(i, best.index)
            } else {
                best.distance
            };
            let (next, passed) = top1_partial_search(
                centroids.index,
                centroids.pdx_data,
                centroids.pdx_indices,
                centroids.aux,
                query,
                start,
                best.index,
                &row,
                partial_d,
                c,
                c + 1,
                extend,
                threshold,
            );
            best = next;
            tested = tested + passed;
        }
        let ghost knn1 = out_knn@;
        let ghost dist1 = out_distances@;
        let ghost counts1 = out_not_pruned_counts@;
        out_knn[i] = best.index;
        out_distances[i] = best.distance;
        out_not_pruned_counts[i] = out_not_pruned_counts[i] + tested;
        proof {
            assert forall|m: int| 0 <= m < i + 1 implies #[trigger] s.point_done(
                m,
                knn0,
                dist0,
                counts0,
                out_knn@,
                out_distances@,
                out_not_pruned_counts@,
            ) by {
                if m < i {
                    assert(s.point_done(m, knn0, dist0, counts0, knn1, dist1, counts1));
                }
            }
        }
    }
}

/// The known part of a list keeps the entries below the largest key, in order.
pub proof fn law_known_part_filters(list: Seq<Neighbour>)
    ensures
        known_part(list) == list.filter(|x: Neighbour| x.0 < MAX_KEY),
    decreases list.len(),
{
    reveal(Seq::filter);
    let p = |x: Neighbour| x.0 < MAX_KEY;
    if list.len() > 0 {
        law_known_part_filters(list.drop_last());
        assert(p(list.last()) == (list.last().0 < MAX_KEY));
    } else {
        assert(list.filter(p) =~= list);
    }
}

} // verus!
