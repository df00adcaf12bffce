//! What the searches for nearest centroids find.
use vstd::prelude::*;
use crate::functions::value_of2;
use crate::kmeans::superkmeans::batch::{
    batch_end, batch_list, batches, clamped, first_nearest, k_nearest_after, k_nearest_of,
    kept_list, known_part, nearest_after, nearest_of, neighbour_keys, sorted_list, Neighbour,
    PrunedSearch,
};
use crate::kmeans::superkmeans::common::{KnnCandidate, MAX_KEY, ZERO_KEY};
use crate::kmeans::superkmeans::layout::block_rows;
use crate::kmeans::superkmeans::pdxearch::{BlockSearch, MatrixSearch};
use crate::quantization::pdx_u8::pruning::{lanes_where, lemma_lanes_where};
use crate::ranking::{
    key_before, lemma_order_exists, lemma_order_is_onto, lemma_smaller_stand_before, order_of,
};

verus! {

proof fn lemma_first_nearest(dist: spec_fn(int) -> u32, lo: int, hi: int)
    requires
        0 <= lo <= hi <= u32::MAX,
    ensures
        forall|j: int|
            lo <= j < hi ==> first_nearest(dist, lo, hi).distance <= #[trigger] dist(j),
        first_nearest(dist, lo, hi).distance <= MAX_KEY,
        first_nearest(dist, lo, hi).distance < MAX_KEY ==> {
            let found = first_nearest(dist, lo, hi);
            lo <= found.index < hi && found.distance == dist(found.index as int)
        },
    decreases hi - lo,
{
    if lo < hi {
        lemma_first_nearest(dist, lo, hi - 1);
    }
}

proof fn lemma_nearest_after(dist: spec_fn(int) -> u32, n_y: int, known: u32, b: nat)
    requires
        0 <= n_y <= u32::MAX,
        b <= batches(n_y),
    ensures
        ({
            let from = KnnCandidate { index: known, distance: MAX_KEY };
            let r = nearest_after(dist, n_y, from, b);
            &&& r.distance <= MAX_KEY
            &&& forall|j: int|
                0 <= j < n_y && j < 1024 * b ==> r.distance <= clamped(#[trigger] dist(j))
            &&& r.distance < MAX_KEY ==> r.index < n_y && r.distance == clamped(
                dist(r.index as int),
            )
            &&& r.distance == MAX_KEY ==> r.index == known
        }),
    decreases b,
{
    if b > 0 {
        lemma_nearest_after(dist, n_y, known, (b - 1) as nat);
        let lo = 1024 * (b - 1);
        lemma_first_nearest(dist, lo, batch_end(n_y, lo));
    }
}

/// No centroid is nearer to a point than the one that is found, and the
/// distance that comes with it is its own. Where no distance is below the
/// largest key, the point keeps the centroid that it had.
pub proof fn law_nearest_is_least<F: Fn(usize, usize) -> u32>(
    distance: F,
    n_y: int,
    i: int,
    known: u32,
)
    requires
        0 <= n_y <= u32::MAX,
    ensures
        ({
            let r = nearest_of(distance, n_y, i, known);
            &&& forall|j: int|
                0 <= j < n_y ==> r.distance <= clamped(
                    #[trigger] value_of2(distance, i as usize, j as usize),
                )
            &&& r.distance < MAX_KEY ==> r.index < n_y && r.distance == clamped(
                value_of2(distance, i as usize, r.index as usize),
            )
            &&& r.distance >= MAX_KEY ==> r.index == known && r.distance == MAX_KEY
        }),
{
    let dist = |j: int| value_of2(distance, i as usize, j as usize);
    lemma_nearest_after(dist, n_y, known, batches(n_y));
    assert forall|j: int| 0 <= j < n_y implies nearest_of(distance, n_y, i, known).distance
        <= clamped(#[trigger] value_of2(distance, i as usize, j as usize)) by {
        assert(dist(j) == value_of2(distance, i as usize, j as usize));
    }
}

/// `list` holds the `k` nearest of the first `m` centroids, nearest first: all
/// of them where there are no more than `k`.
pub open spec fn are_k_nearest(
    list: Seq<Neighbour>,
    dist: spec_fn(int) -> u32,
    m: int,
    k: nat,
) -> bool {
    &&& list.len() == if m < k {
        m
    } else {
        k as int
    }
    &&& forall|s: int, t: int|
        0 <= s < t < list.len() ==> (#[trigger] list[s]).0 <= (#[trigger] list[t]).0
    &&& forall|s: int, t: int|
        0 <= s < t < list.len() ==> (#[trigger] list[s]).1 != (#[trigger] list[t]).1
    &&& forall|t: int|
        0 <= t < list.len() ==> (#[trigger] list[t]).1 < m && list[t].0 == clamped(
            dist(list[t].1 as int),
        )
    &&& forall|j: int, t: int|
        0 <= j < m && 0 <= t < list.len() && !is_listed(list, j) ==> (#[trigger] list[t]).0
            <= clamped(#[trigger] dist(j))
}

/// The list holds centroid `j`.
pub open spec fn is_listed(list: Seq<Neighbour>, j: int) -> bool {
    exists|t: int| 0 <= t < list.len() && (#[trigger] list[t]).1 == j
}

proof fn lemma_known_part(list: Seq<Neighbour>)
    requires
        forall|t: int| 0 <= t < list.len() ==> (#[trigger] list[t]).0 < MAX_KEY,
    ensures
        known_part(list) == list,
    decreases list.len(),
{
    if list.len() > 0 {
        lemma_known_part(list.drop_last());
        assert(list.drop_last().push(list.last()) =~= list);
    }
}

/// One batch more: the `k` nearest of the first `m` centroids and a batch give
/// the `k` nearest of all of them.
proof fn lemma_next_batch(
    list: Seq<Neighbour>,
    dist: spec_fn(int) -> u32,
    lo: int,
    hi: int,
    k: nat,
)
    requires
        0 <= lo < hi <= u32::MAX,
        hi - lo <= 1024,
        k > 0,
        k + 1024 <= usize::MAX,
        are_k_nearest(list, dist, lo, k),
    ensures
        are_k_nearest(
            kept_list(sorted_list(list + batch_list(dist, lo, hi)), k),
            dist,
            hi,
            k,
        ),
{
    let had = list.len() as int;
    let all = list + batch_list(dist, lo, hi);
    let keys = neighbour_keys(all);
    let order = order_of(keys);
    lemma_order_exists(keys);
    let sorted = sorted_list(all);
    let kept = kept_list(sorted, k);
    assert(all.len() == had + (hi - lo));
    assert(kept.len() == if hi < k {
        hi
    } else {
        k as int
    });
    assert forall|c: int| 0 <= c < all.len() implies (#[trigger] all[c]).1 < hi && clamped(all[c].0)
        == clamped(dist(all[c].1 as int)) && (c >= had ==> all[c].1 == lo + c - had) by {
        if c < had {
            assert(all[c] == list[c]);
        }
    }
    assert forall|c: int, e: int| 0 <= c < e < all.len() implies (#[trigger] all[c]).1 != (
    #[trigger] all[e]).1 by {
        if c < had {
            assert(all[c] == list[c]);
            if e < had {
                assert(all[e] == list[e]);
            }
        }
    }
    assert forall|t: int| 0 <= t < kept.len() implies (#[trigger] kept[t]).1
        == all[order[t] as int].1 && kept[t].0 == clamped(all[order[t] as int].0) by {
        assert(sorted[t] == all[order[t] as int]);
    }
    assert forall|s: int, t: int| 0 <= s < t < kept.len() implies (#[trigger] kept[s]).0 <= (
    #[trigger] kept[t]).0 && kept[s].1 != kept[t].1 by {
        assert(key_before(keys, order[s] as int, order[t] as int));
    }
    assert forall|j: int, t: int|
        0 <= j < hi && 0 <= t < kept.len() && !is_listed(kept, j) implies (#[trigger] kept[t]).0
        <= clamped(#[trigger] dist(j)) by {
        if j >= lo || is_listed(list, j) {
            let c = if j >= lo {
                had + j - lo
            } else {
                choose|c: int| 0 <= c < list.len() && (#[trigger] list[c]).1 == j
            };
            if j < lo {
                assert(all[c] == list[c]);
            }
            assert(all[c].1 == j);
            lemma_order_is_onto(keys, order, c);
            let at = choose|at: int| 0 <= at < order.len() && #[trigger] order[at] == c;
            if at < kept.len() {
                assert(kept[at].1 == j);
                assert(is_listed(kept, j));
            }
            assert(key_before(keys, order[t] as int, order[at] as int));
            assert(clamped(all[c].0) == clamped(dist(j)));
        } else {
            let x = clamped(dist(j));
            assert(had == k) by {
                if had < k {
                    lemma_short_list_is_full(list, dist, lo, k, j);
                }
            }
            if kept[t].0 > x {
                assert forall|c: int| 0 <= c < k implies #[trigger] keys[c]
                    < keys[order[t] as int] by {
                    assert(all[c] == list[c]);
                    assert(list[c].0 <= x);
                }
                lemma_smaller_stand_before(keys, order, k, t);
            }
        }
    }
}

/// A list that is shorter than `k` holds every centroid.
proof fn lemma_short_list_is_full(
    list: Seq<Neighbour>,
    dist: spec_fn(int) -> u32,
    m: int,
    k: nat,
    j: int,
)
    requires
        0 <= m,
        are_k_nearest(list, dist, m, k),
        list.len() < k,
        0 <= j < m,
    ensures
        is_listed(list, j),
{
    let ids = Seq::new(list.len(), |t: int| list[t].1 as int);
    assert(ids.no_duplicates());
    ids.unique_seq_to_set();
    let all = vstd::set_lib::set_int_range(0, m);
    vstd::set_lib::lemma_int_range(0, m);
    assert(ids.to_set().subset_of(all)) by {
        assert forall|y: int| #[trigger] ids.to_set().contains(y) implies all.contains(y) by {
            let t = choose|t: int| 0 <= t < ids.len() && ids[t] == y;
            assert(list[t].1 < m);
        }
    }
    vstd::set_lib::lemma_subset_equality(ids.to_set(), all);
    assert(ids.to_set().contains(j));
    let t = choose|t: int| 0 <= t < ids.len() && ids[t] == j;
    assert(list[t].1 == j);
}

proof fn lemma_k_nearest_after(dist: spec_fn(int) -> u32, n_y: int, k: nat, b: nat)
    requires
        0 <= n_y <= u32::MAX,
        k > 0,
        k + 1024 <= usize::MAX,
        b <= batches(n_y),
        n_y <= 1024 || forall|j: int| 0 <= j < n_y ==> #[trigger] dist(j) < MAX_KEY,
    ensures
        are_k_nearest(
            k_nearest_after(dist, n_y, k, b),
            dist,
            batch_end(n_y, 1024 * (b - 1)),
            k,
        ),
    decreases b,
{
    let list = k_nearest_after(dist, n_y, k, b);
    if b == 0 {
        assert(list =~= Seq::empty());
    } else {
        lemma_k_nearest_after(dist, n_y, k, (b - 1) as nat);
        let prev = k_nearest_after(dist, n_y, k, (b - 1) as nat);
        let lo = 1024 * (b - 1);
        assert(lo < n_y);
        assert forall|t: int| 0 <= t < prev.len() implies (#[trigger] prev[t]).0 < MAX_KEY by {
            assert(n_y > 1024);
            assert(dist(prev[t].1 as int) < MAX_KEY);
        }
        lemma_known_part(prev);
        lemma_next_batch(prev, dist, lo, batch_end(n_y, lo), k);
    }
}

/// The neighbours that are found for a point are its `k` nearest centroids,
/// nearest first, where they fit into one batch or all keys are below the
/// largest.
pub proof fn law_k_nearest_are_least<F: Fn(usize, usize) -> u32>(
    distance: F,
    n_y: int,
    i: int,
    k: nat,
)
    requires
        0 <= n_y <= u32::MAX,
        0 < k,
        k + 1024 <= usize::MAX,
        n_y <= 1024 || forall|j: int|
            0 <= j < n_y ==> #[trigger] value_of2(distance, i as usize, j as usize) < MAX_KEY,
    ensures
        are_k_nearest(
            k_nearest_of(distance, n_y, i, k),
            |j: int| value_of2(distance, i as usize, j as usize),
            n_y,
            k,
        ),
{
    let dist = |j: int| value_of2(distance, i as usize, j as usize);
    if n_y > 1024 {
        assert forall|j: int| 0 <= j < n_y implies #[trigger] dist(j) < MAX_KEY by {
            assert(dist(j) == value_of2(distance, i as usize, j as usize));
        }
    }
    lemma_k_nearest_after(dist, n_y, k, batches(n_y));
}

proof fn lemma_best_of<T>(s: BlockSearch<T>, list: Seq<u32>, from: KnnCandidate, n: nat)
    ensures
        s.best_of(list, from, n) == from || s.best_of(list, from, n).distance < from.distance,
    decreases n,
{
    if n > 0 {
        lemma_best_of(s, list, from, (n - 1) as nat);
    }
}

proof fn lemma_matrix_best<T>(
    s: MatrixSearch<T>,
    from: KnnCandidate,
    previous: u32,
    partial: Seq<u32>,
    first: int,
    end: int,
)
    ensures
        ({
            let r = s.best(from, previous, partial, first, end);
            r == from || r.distance < from.distance
        }),
    decreases end - first,
{
    if first < end {
        lemma_matrix_best(s, from, previous, partial, first, end - 1);
        let best = s.best(from, previous, partial, first, end - 1);
        let block = s.block(end - 1, s.segment(partial, first, end - 1));
        let list = block.survivors(best.distance, previous);
        lemma_best_of(block, list, best, list.len());
    }
}

proof fn lemma_pruned_after<T>(s: PrunedSearch<T>, i: int, known: KnnCandidate, b: nat)
    requires
        b > 0,
    ensures
        ({
            let r = s.after(i, known, b).best;
            let own = (s.full)(i, known.index);
            (r.index == known.index && r.distance == own) || r.distance < own
        }),
    decreases b,
{
    if b > 1 {
        lemma_pruned_after(s, i, known, (b - 1) as nat);
    }
    let prev = s.after(i, known, (b - 1) as nat);
    let from = KnnCandidate {
        index: prev.best.index,
        distance: if b == 1 {
            (s.full)(i, prev.best.index)
        } else {
            prev.best.distance
        },
    };
    lemma_matrix_best(
        s.point(i),
        from,
        prev.best.index,
        s.partial_row(i, b - 1),
        b - 1,
        b as int,
    );
}

/// A search with pruning never makes a point worse off: it keeps its centroid,
/// at the distance that it has to it, or takes one that is nearer.
pub proof fn law_pruning_never_worsens<T>(s: PrunedSearch<T>, i: int, known: KnnCandidate)
    requires
        s.n_y > 0,
    ensures
        ({
            let r = s.after(i, known, batches(s.n_y as int)).best;
            let own = (s.full)(i, known.index);
            (r.index == known.index && r.distance == own) || r.distance < own
        }),
{
    lemma_pruned_after(s, i, known, batches(s.n_y as int));
}

proof fn lemma_best_of_index<T>(s: BlockSearch<T>, list: Seq<u32>, from: KnnCandidate, n: nat, k: int)
    requires
        n <= list.len(),
        forall|t: int| 0 <= t < list.len() ==> #[trigger] list[t] < s.indices.len(),
        forall|l: int| 0 <= l < s.indices.len() ==> #[trigger] s.indices[l] < k,
    ensures
        s.best_of(list, from, n).index == from.index || s.best_of(list, from, n).index < k,
    decreases n,
{
    if n > 0 {
        lemma_best_of_index(s, list, from, (n - 1) as nat, k);
        assert(list[n - 1] < s.indices.len());
        assert(s.indices[list[n - 1] as int] < k);
    }
}

proof fn lemma_matrix_best_index<T>(
    s: MatrixSearch<T>,
    from: KnnCandidate,
    previous: u32,
    partial: Seq<u32>,
    first: int,
    end: int,
    k: int,
)
    requires
        0 <= first,
        1024 * (end - 1) <= s.rows,
        s.rows == s.pdx_indices.len(),
        s.rows <= u32::MAX,
        forall|l: int|
            0 <= l < s.pdx_indices.len() && l < 1024 * end ==> #[trigger] s.pdx_indices[l] < k,
    ensures
        ({
            let r = s.best(from, previous, partial, first, end);
            r.index == from.index || r.index < k
        }),
    decreases end - first,
{
    if first < end {
        lemma_matrix_best_index(s, from, previous, partial, first, end - 1, k);
        let c = end - 1;
        let best = s.best(from, previous, partial, first, c);
        let block = s.block(c, s.segment(partial, first, c));
        let n = block_rows(s.rows as int, c);
        let list = block.survivors(best.distance, previous);
        assert(block.indices.len() == n);
        assert forall|l: int| 0 <= l < block.indices.len() implies #[trigger] block.indices[l]
            < k by {
            assert(block.indices[l] == s.pdx_indices[1024 * c + l]);
        }
        lemma_lanes_where(block.rows, |l: int| block.passes(l, best.distance));
        assert forall|t: int| 0 <= t < list.len() implies #[trigger] list[t]
            < block.indices.len() by {
            assert(list == lanes_where(block.rows, |l: int| block.passes(l, best.distance)));
        }
        lemma_best_of_index(block, list, best, list.len(), k);
    }
}

/// A search with pruning finds the centroid that was known, or one of those
/// that it searches.
pub proof fn law_pruning_finds_centroids<T>(
    s: PrunedSearch<T>,
    i: int,
    known: KnnCandidate,
    b: nat,
    k: int,
)
    requires
        b <= batches(s.n_y as int),
        s.n_y <= s.pdx_indices.len() <= u32::MAX,
        s.n_y == s.pdx_indices.len() || s.n_y % 1024 == 0,
        forall|l: int| 0 <= l < s.n_y ==> #[trigger] s.pdx_indices[l] < k,
    ensures
        s.after(i, known, b).best.index == known.index || s.after(i, known, b).best.index < k,
    decreases b,
{
    if b > 0 {
        law_pruning_finds_centroids(s, i, known, (b - 1) as nat, k);
        let prev = s.after(i, known, (b - 1) as nat);
        let from = KnnCandidate {
            index: prev.best.index,
            distance: if b == 1 {
                (s.full)(i, prev.best.index)
            } else {
                prev.best.distance
            },
        };
        lemma_matrix_best_index(
            s.point(i),
            from,
            prev.best.index,
            s.partial_row(i, b - 1),
            b - 1,
            b as int,
            k,
        );
    }
}

proof fn lemma_first_of_batch(dist: spec_fn(int) -> u32, lo: int, hi: int)
    requires
        0 <= lo <= hi <= u32::MAX,
    ensures
        ({
            let found = first_nearest(dist, lo, hi);
            found.distance < MAX_KEY ==> forall|j: int|
                lo <= j < found.index ==> found.distance < #[trigger] dist(j)
        }),
    decreases hi - lo,
{
    if lo < hi {
        lemma_first_of_batch(dist, lo, hi - 1);
        lemma_first_nearest(dist, lo, hi - 1);
    }
}

proof fn lemma_first_after(dist: spec_fn(int) -> u32, n_y: int, known: u32, b: nat)
    requires
        0 <= n_y <= u32::MAX,
        b <= batches(n_y),
        forall|j: int| 0 <= j < n_y ==> #[trigger] dist(j) >= ZERO_KEY,
    ensures
        ({
            let from = KnnCandidate { index: known, distance: MAX_KEY };
            let r = nearest_after(dist, n_y, from, b);
            r.distance < MAX_KEY ==> forall|j: int|
                0 <= j < r.index ==> r.distance < #[trigger] dist(j)
        }),
    decreases b,
{
    if b > 0 {
        let from = KnnCandidate { index: known, distance: MAX_KEY };
        lemma_first_after(dist, n_y, known, (b - 1) as nat);
        lemma_nearest_after(dist, n_y, known, (b - 1) as nat);
        let lo = 1024 * (b - 1);
        lemma_first_of_batch(dist, lo, batch_end(n_y, lo));
        lemma_first_nearest(dist, lo, batch_end(n_y, lo));
        let best = nearest_after(dist, n_y, from, (b - 1) as nat);
        let found = first_nearest(dist, lo, batch_end(n_y, lo));
        let r = nearest_after(dist, n_y, from, b);
        if found.distance < best.distance {
            assert(r.index == found.index && r.distance == clamped(found.distance));
            assert(found.distance < MAX_KEY);
            assert(found.distance == dist(found.index as int));
            assert forall|j: int| 0 <= j < r.index implies r.distance < #[trigger] dist(j) by {
                if j < lo {
                    assert(best.distance <= clamped(dist(j)));
                }
            }
        }
    }
}

/// Of centroids that are as near, the first is found: where no distance is below
/// zero, every centroid before the one that is found is farther.
pub proof fn law_nearest_is_the_first<F: Fn(usize, usize) -> u32>(
    distance: F,
    n_y: int,
    i: int,
    known: u32,
)
    requires
        0 <= n_y <= u32::MAX,
        forall|j: int|
            0 <= j < n_y ==> #[trigger] value_of2(distance, i as usize, j as usize) >= ZERO_KEY,
    ensures
        ({
            let r = nearest_of(distance, n_y, i, known);
            r.distance < MAX_KEY ==> forall|j: int|
                0 <= j < r.index ==> r.distance < #[trigger] value_of2(
                    distance,
                    i as usize,
                    j as usize,
                )
        }),
{
    let dist = |j: int| value_of2(distance, i as usize, j as usize);
    assert forall|j: int| 0 <= j < n_y implies #[trigger] dist(j) >= ZERO_KEY by {
        assert(value_of2(distance, i as usize, j as usize) >= ZERO_KEY);
    }
    lemma_first_after(dist, n_y, known, batches(n_y));
    let r = nearest_of(distance, n_y, i, known);
    if r.distance < MAX_KEY {
        assert forall|j: int| 0 <= j < r.index implies r.distance < #[trigger] value_of2(
            distance,
            i as usize,
            j as usize,
        ) by {
            assert(r.distance < dist(j));
        }
    }
}

proof fn lemma_all_known(list: Seq<Neighbour>)
    requires
        forall|t: int| 0 <= t < list.len() ==> (#[trigger] list[t]).0 < MAX_KEY,
    ensures
        known_part(list) == list,
    decreases list.len(),
{
    if list.len() > 0 {
        let t = list.drop_last();
        assert forall|i: int| 0 <= i < t.len() implies (#[trigger] t[i]).0 < MAX_KEY by {
            assert(t[i] == list[i]);
        }
        lemma_all_known(t);
        assert(list[list.len() - 1].0 < MAX_KEY);
        assert(known_part(list) =~= list);
    }
}

proof fn lemma_ties_after(dist: spec_fn(int) -> u32, n_y: int, k: nat, b: nat)
    requires
        0 <= n_y <= u32::MAX,
        b <= batches(n_y),
        k <= usize::MAX - 1024,
        forall|j: int| 0 <= j < n_y ==> ZERO_KEY <= #[trigger] dist(j) < MAX_KEY,
    ensures
        ({
            let list = k_nearest_after(dist, n_y, k, b);
            &&& list.len() <= k
            &&& forall|t: int|
                0 <= t < list.len() ==> ZERO_KEY <= (#[trigger] list[t]).0 < MAX_KEY && list[t].1
                    < 1024 * b && list[t].1 < n_y
            &&& forall|s: int, t: int|
                0 <= s < t < list.len() ==> (#[trigger] list[s]).0 <= (#[trigger] list[t]).0 && (
                list[s].0 == list[t].0 ==> list[s].1 < list[t].1)
        }),
    decreases b,
{
    if b > 0 {
        lemma_ties_after(dist, n_y, k, (b - 1) as nat);
        let known = k_nearest_after(dist, n_y, k, (b - 1) as nat);
        lemma_all_known(known);
        let lo = 1024 * (b - 1);
        let hi = batch_end(n_y, lo);
        let fresh = batch_list(dist, lo, hi);
        let both = known + fresh;
        let keys = neighbour_keys(both);
        assert(both.len() <= usize::MAX);
        lemma_order_exists(keys);
        let order = order_of(keys);
        let sorted = sorted_list(both);
        let list = k_nearest_after(dist, n_y, k, b);
        assert(list == kept_list(sorted, k));
        assert forall|p: int| 0 <= p < both.len() implies ZERO_KEY <= (#[trigger] both[p]).0
            < MAX_KEY && both[p].1 < 1024 * b && both[p].1 < n_y by {
            if p >= known.len() {
                let t = p - known.len();
                assert(both[p] == fresh[t]);
                assert(fresh[t].0 == dist(lo + t));
            } else {
                assert(both[p] == known[p]);
            }
        }
        assert forall|p: int, q: int|
            0 <= p < q < both.len() && (#[trigger] both[p]).0 == (#[trigger] both[q]).0 implies
            both[p].1 < both[q].1 by {
            if q < known.len() {
                assert(both[p] == known[p] && both[q] == known[q]);
            } else {
                assert(both[q] == fresh[q - known.len()]);
                if p < known.len() {
                    assert(both[p] == known[p]);
                } else {
                    assert(both[p] == fresh[p - known.len()]);
                }
            }
        }
        assert forall|t: int| 0 <= t < list.len() implies ZERO_KEY <= (#[trigger] list[t]).0
            < MAX_KEY && list[t].1 < 1024 * b && list[t].1 < n_y by {
            let x = both[order[t] as int];
            assert(sorted[t] == x);
        }
        assert forall|s: int, t: int| 0 <= s < t < list.len() implies (#[trigger] list[s]).0 <= (
        #[trigger] list[t]).0 && (list[s].0 == list[t].0 ==> list[s].1 < list[t].1) by {
            let p = order[s] as int;
            let q = order[t] as int;
            assert(key_before(keys, p, q));
            assert(sorted[s] == both[p] && sorted[t] == both[q]);
            assert(ZERO_KEY <= both[p].0 < MAX_KEY);
            assert(ZERO_KEY <= both[q].0 < MAX_KEY);
        }
    }
}

/// The `k` nearest centroids come nearest first, and of those as near the one
/// with the smaller number first, where no distance is below zero or beyond the
/// largest key.
pub proof fn law_k_nearest_are_in_order<F: Fn(usize, usize) -> u32>(
    distance: F,
    n_y: int,
    i: int,
    k: nat,
)
    requires
        0 <= n_y <= u32::MAX,
        k <= usize::MAX - 1024,
        forall|j: int|
            0 <= j < n_y ==> ZERO_KEY <= #[trigger] value_of2(distance, i as usize, j as usize)
                < MAX_KEY,
    ensures
        ({
            let list = k_nearest_of(distance, n_y, i, k);
            forall|s: int, t: int|
                0 <= s < t < list.len() ==> (#[trigger] list[s]).0 <= (#[trigger] list[t]).0 && (
                list[s].0 == list[t].0 ==> list[s].1 < list[t].1)
        }),
{
    let dist = |j: int| value_of2(distance, i as usize, j as usize);
    assert forall|j: int| 0 <= j < n_y implies ZERO_KEY <= #[trigger] dist(j) < MAX_KEY by {
        assert(ZERO_KEY <= value_of2(distance, i as usize, j as usize) < MAX_KEY);
    }
    lemma_ties_after(dist, n_y, k, batches(n_y));
}

} // verus!
