//! What a pruned search finds when its thresholds drop nothing that is nearer.
use vstd::prelude::*;
use crate::arith::{lemma_total_congruent, lemma_total_nonnegative, lemma_total_split, total};
use crate::kmeans::superkmeans::batch::{batches, PrunedSearch};
use crate::kmeans::superkmeans::common::KnnCandidate;
use crate::kmeans::superkmeans::layout::{
    block_rows, horizontal_part, is_blocked, lemma_split, local_position, position, vertical_part,
};
use crate::kmeans::superkmeans::pdxearch::BlockSearch;
use crate::quantization::pdx_u8::pruning::{lanes_where, lemma_lanes_where};

verus! {

/// A sum as a distance holds it: at most the largest one.
pub open spec fn capped(x: int) -> int {
    if x <= u32::MAX {
        x
    } else {
        u32::MAX as int
    }
}

/// More dimensions never make a distance smaller.
pub open spec fn never_shrinks<T>(extend: spec_fn(u32, Seq<T>, Seq<T>) -> u32) -> bool {
    forall|a: u32, p: Seq<T>, q: Seq<T>| #[trigger] extend(a, p, q) >= a
}

/// No threshold drops a distance below the best one.
pub open spec fn drops_only_farther(thr: spec_fn(u32, u32) -> u32) -> bool {
    forall|best: u32, v: u32| best <= #[trigger] thr(best, v)
}

/// Distances add up: more dimensions add what `g` gives for each.
pub open spec fn adds_up<T>(
    extend: spec_fn(u32, Seq<T>, Seq<T>) -> u32,
    g: spec_fn(T, T) -> int,
) -> bool {
    &&& forall|a: T, b: T| #[trigger] g(a, b) >= 0
    &&& forall|a: u32, p: Seq<T>, q: Seq<T>|
        #[trigger] extend(a, p, q) == capped(a + total(p.len(), |t: int| g(p[t], q[t])))
}

/// The distance of row `i` of `x` and row `r` of `y` over their first `n`
/// dimensions of `d`.
pub open spec fn row_distance<T>(
    x: Seq<T>,
    i: int,
    y: Seq<T>,
    r: int,
    d: nat,
    n: nat,
    g: spec_fn(T, T) -> int,
) -> int {
    capped(total(n, |t: int| g(x[i * d + t], y[r * d + t])))
}

/// The distance of point `i` to row `r` of the centroids, as a search adds it up.
pub open spec fn added_distance<T>(s: PrunedSearch<T>, i: int, r: int) -> u32 {
    s.point(i).block(r / 1024, s.partial_row(i, r / 1024)).total(r % 1024)
}

proof fn lemma_blocks_grow<T>(s: BlockSearch<T>, l: int, a: nat, b: nat)
    requires
        never_shrinks(s.extend),
        a <= b,
    ensures
        s.after_blocks(l, a) <= s.after_blocks(l, b),
    decreases b,
{
    if a < b {
        lemma_blocks_grow(s, l, a, (b - 1) as nat);
    }
}

proof fn lemma_near_row_passes_blocks<T>(s: BlockSearch<T>, l: int, best: u32, b: nat)
    requires
        never_shrinks(s.extend),
        drops_only_farther(s.thr),
        b <= s.blocks(),
        s.total(l) < best,
    ensures
        s.passes_blocks(l, best, b),
    decreases b,
{
    if b > 0 {
        lemma_near_row_passes_blocks(s, l, best, (b - 1) as nat);
    }
    lemma_blocks_grow(s, l, b, s.blocks());
    assert(s.after_blocks(l, b) <= s.total(l));
}

proof fn lemma_best_of_list<T>(s: BlockSearch<T>, list: Seq<u32>, from: KnnCandidate, n: nat)
    requires
        n <= list.len(),
    ensures
        s.best_of(list, from, n).distance <= from.distance,
        forall|t: int|
            0 <= t < n ==> s.best_of(list, from, n).distance <= s.total(#[trigger] list[t] as int),
        s.best_of(list, from, n) == from || exists|t: int|
            0 <= t < n && s.best_of(list, from, n) == (KnnCandidate {
                index: s.indices[#[trigger] list[t] as int],
                distance: s.total(list[t] as int),
            }) && forall|e: int|
                0 <= e < t ==> s.best_of(list, from, n).distance < s.total(
                    #[trigger] list[e] as int,
                ),
    decreases n,
{
    if n > 0 {
        lemma_best_of_list(s, list, from, (n - 1) as nat);
        let best = s.best_of(list, from, (n - 1) as nat);
        let l = list[n - 1] as int;
        assert(s.total(l) < best.distance ==> s.best_of(list, from, n) == (KnnCandidate {
            index: s.indices[list[n - 1] as int],
            distance: s.total(list[n - 1] as int),
        }));
    }
}

proof fn lemma_best_of_moves<T>(s: BlockSearch<T>, list: Seq<u32>, from: KnnCandidate, n: nat)
    ensures
        s.best_of(list, from, n) == from || s.best_of(list, from, n).distance < from.distance,
    decreases n,
{
    if n > 0 {
        lemma_best_of_moves(s, list, from, (n - 1) as nat);
    }
}

/// A block gives up its nearest row: with exact thresholds, no row of the block
/// is nearer than the candidate after it, which is the one before it or a nearer
/// row at its own distance, the first of those as near. The row that was best
/// before must not be nearer than what is known.
pub proof fn law_block_gives_its_nearest_row<T>(
    s: BlockSearch<T>,
    from: KnnCandidate,
    previous: u32,
)
    requires
        s.rows == s.indices.len() <= u32::MAX,
        never_shrinks(s.extend),
        drops_only_farther(s.thr),
        forall|l: int|
            0 <= l < s.rows && #[trigger] s.indices[l] == previous ==> from.distance <= s.total(l),
    ensures
        s.result(from, previous).distance <= from.distance,
        forall|l: int|
            0 <= l < s.rows ==> s.result(from, previous).distance <= #[trigger] s.total(l),
        s.result(from, previous) == from || exists|l: int|
            0 <= l < s.rows && s.result(from, previous) == (KnnCandidate {
                index: s.indices[l],
                distance: #[trigger] s.total(l),
            }) && s.total(l) < from.distance && forall|e: int|
                0 <= e < l ==> s.result(from, previous).distance < #[trigger] s.total(e),
{
    let best = from.distance;
    let p0 = |l: int| s.passes_blocks(l, best, 0);
    let p = |l: int| s.passes(l, best);
    let list = s.survivors(best, previous);
    let first = s.first_list(best);
    lemma_lanes_where(s.rows, p0);
    lemma_lanes_where(s.rows, p);
    lemma_best_of_list(s, list, from, list.len());
    let r = s.result(from, previous);
    if first.len() == 1 && s.indices[first[0] as int] == previous {
        assert forall|l: int| 0 <= l < s.rows implies r.distance <= #[trigger] s.total(l) by {
            if s.total(l) < best {
                lemma_near_row_passes_blocks(s, l, best, 0);
                assert(p0(l));
                assert(first.contains(l as u32));
                assert(first[0] == l as u32);
            }
        }
    } else {
        assert forall|l: int| 0 <= l < s.rows implies r.distance <= #[trigger] s.total(l) by {
            if s.total(l) < best {
                lemma_near_row_passes_blocks(s, l, best, s.blocks());
                assert(p(l));
                assert(list.contains(l as u32));
                let t = choose|t: int| 0 <= t < list.len() && list[t] == l as u32;
                assert(s.total(list[t] as int) == s.total(l));
            }
        }
        if r != from {
            let t = choose|t: int|
                0 <= t < list.len() && r == (KnnCandidate {
                    index: s.indices[#[trigger] list[t] as int],
                    distance: s.total(list[t] as int),
                }) && forall|e: int|
                    0 <= e < t ==> r.distance < s.total(#[trigger] list[e] as int);
            let l = list[t] as int;
            assert(0 <= l < s.rows);
            assert(r.distance == s.total(l));
            lemma_best_of_moves(s, list, from, list.len());
            assert forall|e: int| 0 <= e < l implies r.distance < #[trigger] s.total(e) by {
                if s.total(e) < best {
                    lemma_near_row_passes_blocks(s, e, best, s.blocks());
                    assert(p(e));
                    assert(list.contains(e as u32));
                    let u = choose|u: int| 0 <= u < list.len() && list[u] == e as u32;
                    assert(u < t) by {
                        if u > t {
                            assert(list[t] < list[u]);
                        }
                    }
                    assert(r.distance < s.total(list[u] as int));
                }
            }
        }
    }
}

/// What a block makes of a candidate, told by the rows of the matrix: the row
/// that takes its place, or a negative number where it stays.
proof fn lemma_block_step<T>(
    s: PrunedSearch<T>,
    i: int,
    c: int,
    from: KnnCandidate,
    previous: u32,
) -> (at: int)
    requires
        s.n_y <= s.pdx_indices.len() <= u32::MAX,
        s.n_y == s.pdx_indices.len() || s.n_y % 1024 == 0,
        0 <= c,
        1024 * c < s.n_y,
        never_shrinks(s.extend),
        drops_only_farther(s.thr),
        forall|r: int|
            1024 * c <= r < s.n_y && #[trigger] s.pdx_indices[r] == previous ==> from.distance
                <= added_distance(s, i, r),
    ensures
        ({
            let best = s.point(i).best(from, previous, s.partial_row(i, c), c, c + 1);
            &&& best.distance <= from.distance
            &&& forall|r: int|
                1024 * c <= r < s.n_y && r < 1024 * (c + 1) ==> best.distance
                    <= #[trigger] added_distance(s, i, r)
            &&& at < 0 ==> best == from
            &&& at >= 0 ==> {
                &&& 1024 * c <= at < s.n_y
                &&& at < 1024 * (c + 1)
                &&& best.index == s.pdx_indices[at]
                &&& best.distance == added_distance(s, i, at)
                &&& best.distance < from.distance
                &&& forall|e: int|
                    1024 * c <= e < at ==> best.distance < #[trigger] added_distance(s, i, e)
            }
        }),
{
    let m = s.point(i);
    let row = s.partial_row(i, c);
    let n = block_rows(m.rows as int, c);
    assert(1024 * c + n <= s.n_y);
    assert(0 < n <= 1024);
    assert(m.segment(row, c, c) =~= row);
    let block = m.block(c, row);
    assert(m.best(from, previous, row, c, c) == from);
    let best = m.best(from, previous, row, c, c + 1);
    assert(best == block.result(from, previous));
    assert forall|l: int| 0 <= l < n implies #[trigger] block.total(l) == added_distance(
        s,
        i,
        1024 * c + l,
    ) by {
        let r = 1024 * c + l;
        assert(r / 1024 == c && r % 1024 == l);
    }
    assert forall|l: int| 0 <= l < n && #[trigger] block.indices[l] == previous implies from.distance
        <= block.total(l) by {
        let r = 1024 * c + l;
        assert(block.indices[l] == s.pdx_indices[r]);
        assert(block.total(l) == added_distance(s, i, r));
    }
    law_block_gives_its_nearest_row(block, from, previous);
    assert forall|r: int| 1024 * c <= r < s.n_y && r < 1024 * (c + 1) implies best.distance
        <= #[trigger] added_distance(s, i, r) by {
        let l = r - 1024 * c;
        assert(block.total(l) == added_distance(s, i, 1024 * c + l));
    }
    if best == from {
        -1
    } else {
        let l = choose|l: int|
            0 <= l < block.rows && best == (KnnCandidate {
                index: block.indices[l],
                distance: #[trigger] block.total(l),
            }) && block.total(l) < from.distance && forall|e: int|
                0 <= e < l ==> best.distance < #[trigger] block.total(e);
        let r = 1024 * c + l;
        assert(block.total(l) == added_distance(s, i, r));
        assert(block.indices[l] == s.pdx_indices[r]);
        assert forall|e: int| 1024 * c <= e < r implies best.distance < #[trigger] added_distance(
            s,
            i,
            e,
        ) by {
            let f = e - 1024 * c;
            assert(block.total(f) == added_distance(s, i, 1024 * c + f));
        }
        r
    }
}

proof fn lemma_pruned_batches<T>(
    s: PrunedSearch<T>,
    i: int,
    known: KnnCandidate,
    b: nat,
) -> (at: int)
    requires
        s.n_y <= s.pdx_indices.len() <= u32::MAX,
        s.n_y == s.pdx_indices.len() || s.n_y % 1024 == 0,
        s.pdx_indices.no_duplicates(),
        never_shrinks(s.extend),
        drops_only_farther(s.thr),
        forall|r: int|
            0 <= r < s.n_y && #[trigger] s.pdx_indices[r] == known.index ==> (s.full)(
                i,
                known.index,
            ) <= added_distance(s, i, r),
        b <= batches(s.n_y as int),
    ensures
        ({
            let best = s.after(i, known, b).best;
            &&& b == 0 ==> best == known && at < 0
            &&& b > 0 ==> best.distance <= (s.full)(i, known.index)
            &&& forall|r: int|
                0 <= r < s.n_y && r < 1024 * b ==> best.distance <= #[trigger] added_distance(
                    s,
                    i,
                    r,
                )
            &&& b > 0 && at < 0 ==> best == (KnnCandidate {
                index: known.index,
                distance: (s.full)(i, known.index),
            })
            &&& at >= 0 ==> {
                &&& at < s.n_y
                &&& at < 1024 * b
                &&& best.index == s.pdx_indices[at]
                &&& best.distance == added_distance(s, i, at)
                &&& forall|e: int|
                    0 <= e < at ==> best.distance < #[trigger] added_distance(s, i, e)
            }
        }),
    decreases b,
{
    if b == 0 {
        -1
    } else {
        let before = lemma_pruned_batches(s, i, known, (b - 1) as nat);
        let prev = s.after(i, known, (b - 1) as nat);
        let from = KnnCandidate {
            index: prev.best.index,
            distance: if b == 1 {
                (s.full)(i, prev.best.index)
            } else {
                prev.best.distance
            },
        };
        let c = b - 1;
        assert(1024 * c < s.n_y);
        assert forall|r: int|
            1024 * c <= r < s.n_y && #[trigger] s.pdx_indices[r] == prev.best.index implies
            from.distance <= added_distance(s, i, r) by {
            if b > 1 && before >= 0 {
                assert(s.pdx_indices[before] == s.pdx_indices[r]);
            }
        }
        let here = lemma_block_step(s, i, c, from, prev.best.index);
        let best = s.after(i, known, b).best;
        assert(best == s.point(i).best(from, prev.best.index, s.partial_row(i, c), c, c + 1));
        assert forall|r: int| 0 <= r < s.n_y && r < 1024 * b implies best.distance
            <= #[trigger] added_distance(s, i, r) by {
            if r < 1024 * c {
                assert(prev.best.distance <= added_distance(s, i, r));
            }
        }
        if here >= 0 {
            assert forall|e: int| 0 <= e < here implies best.distance < #[trigger] added_distance(
                s,
                i,
                e,
            ) by {
                if e < 1024 * c {
                    assert(prev.best.distance <= added_distance(s, i, e));
                }
            }
            here
        } else {
            before
        }
    }
}

/// A pruned search finds the nearest: with thresholds that drop nothing nearer,
/// no searched centroid is nearer than the one that is found, which is the one
/// that was known, at its full distance, or a searched one at its own, the first
/// of those as near.
pub proof fn law_pruned_search_finds_the_nearest<T>(
    s: PrunedSearch<T>,
    i: int,
    known: KnnCandidate,
)
    requires
        0 < s.n_y <= s.pdx_indices.len() <= u32::MAX,
        s.n_y == s.pdx_indices.len() || s.n_y % 1024 == 0,
        s.pdx_indices.no_duplicates(),
        never_shrinks(s.extend),
        drops_only_farther(s.thr),
        forall|r: int|
            0 <= r < s.n_y && #[trigger] s.pdx_indices[r] == known.index ==> (s.full)(
                i,
                known.index,
            ) <= added_distance(s, i, r),
    ensures
        s.found(i, known).distance <= (s.full)(i, known.index),
        forall|r: int|
            0 <= r < s.n_y ==> s.found(i, known).distance <= #[trigger] added_distance(s, i, r),
        s.found(i, known) == (KnnCandidate {
            index: known.index,
            distance: (s.full)(i, known.index),
        }) || exists|r: int|
            0 <= r < s.n_y && s.found(i, known) == (KnnCandidate {
                index: s.pdx_indices[r],
                distance: #[trigger] added_distance(s, i, r),
            }) && forall|e: int|
                0 <= e < r ==> s.found(i, known).distance < #[trigger] added_distance(s, i, e),
{
    let at = lemma_pruned_batches(s, i, known, batches(s.n_y as int));
    if at >= 0 {
        assert(s.found(i, known).distance == added_distance(s, i, at));
    }
}

/// Dimension `j` of row `r` where the layout of a block has it.
proof fn lemma_place_in_block(n: int, d: int, r: int, j: int)
    requires
        0 < d <= u32::MAX,
        0 <= r < n,
        vertical_part(d as nat) <= j < d,
    ensures
        ({
            let c = r / 1024;
            let rows = block_rows(n, c);
            let v = vertical_part(d as nat);
            let b = (j - v) / 64;
            position(n, d, 1024, r, j) == 1024 * c * d + (v + 64 * b) * rows + 64 * (r % 1024) + (j
                - v - 64 * b)
        }),
{
    let c = r / 1024;
    assert(r / 1024 * 1024 == 1024 * c);
    assert(r - 1024 * c == r % 1024);
}

/// A sum over the dimensions from `lo` on.
spec fn window(f: spec_fn(int) -> int, lo: int, n: nat) -> int {
    total(n, |t: int| f(lo + t))
}

proof fn lemma_window_joins(f: spec_fn(int) -> int, lo: int, a: nat, b: nat)
    ensures
        window(f, lo, a + b) == window(f, lo, a) + window(f, lo + a, b),
{
    let g = |t: int| f(lo + t);
    lemma_total_split(a, b, g);
    let h1 = |t: int| g(a + t);
    let h2 = |t: int| f(lo + a + t);
    assert forall|t: int| 0 <= t < b implies #[trigger] h1(t) == h2(t) by {
        assert(lo + (a + t) == lo + a + t);
    }
    lemma_total_congruent(b, h1, h2);
}

proof fn lemma_after_blocks<T>(
    s: PrunedSearch<T>,
    i: int,
    r: int,
    y: Seq<T>,
    g: spec_fn(T, T) -> int,
    b: nat,
)
    requires
        0 < s.d <= u32::MAX,
        0 <= r < s.pdx_indices.len(),
        s.pdx_data.len() == s.pdx_indices.len() * s.d,
        0 <= i,
        i * s.d + s.d <= s.x.len(),
        adds_up(s.extend, g),
        is_blocked(s.pdx_data, y, s.pdx_indices.len() as int, s.d as int, 1024),
        64 * b <= horizontal_part(s.d),
    ensures
        s.point(i).block(r / 1024, s.partial_row(i, r / 1024)).after_blocks(r % 1024, b) == capped(
            (s.partial)(i, r) + window(
                |t: int| g(s.x[i * s.d + t], y[r * s.d + t]),
                vertical_part(s.d),
                64 * b,
            ),
        ),
    decreases b,
{
    let c = r / 1024;
    let l = r % 1024;
    let rows = s.pdx_indices.len() as int;
    let n = block_rows(rows, c);
    let d = s.d as int;
    let v = vertical_part(s.d);
    let f = |t: int| g(s.x[i * s.d + t], y[r * s.d + t]);
    let block = s.point(i).block(c, s.partial_row(i, c));
    lemma_split(s.d);
    assert(1024 * c + l == r && 0 <= l < n);
    assert(0 <= i * d) by (nonlinear_arith)
        requires
            0 <= i,
            0 < d,
    ;
    if b == 0 {
        assert(block.start[l] == (s.partial)(i, r));
        assert(window(f, v, 0) == 0) by {
            crate::arith::lemma_total_step(0, |t: int| f(v + t));
        }
    } else {
        lemma_after_blocks(s, i, r, y, g, (b - 1) as nat);
        let q = v + 64 * (b - 1);
        let at = q * n + 64 * l;
        let p = block.query.subrange(q, q + 64);
        let w = block.data.subrange(at, at + 64);
        assert(0 <= 1024 * c * d && 0 <= q * n && at + 64 <= n * d && 1024 * c * d + n * d <= rows
            * d) by (nonlinear_arith)
            requires
                at == q * n + 64 * l,
                0 <= c,
                0 <= l,
                l + 1 <= n,
                0 <= q,
                q + 64 <= d,
                0 < d,
                1024 * c + n <= rows,
        ;
        let here = |t: int| g(p[t], w[t]);
        let there = |t: int| f(q + t);
        assert forall|t: int| 0 <= t < 64 implies #[trigger] here(t) == there(t) by {
            let j = q + t;
            assert((j - v) / 64 == b - 1);
            lemma_place_in_block(rows, d, r, j);
            let place = position(rows, d, 1024, r, j);
            assert(place == 1024 * c * d + at + t);
            assert(w[t] == s.pdx_data[place]);
            assert(s.pdx_data[position(rows, d, 1024, r, j)] == y[r * d + j]);
            assert(p[t] == s.x[i * d + j]);
        }
        lemma_total_congruent(64, here, there);
        lemma_window_joins(f, v, (64 * (b - 1)) as nat, 64);
        assert(v + (64 * (b - 1)) as nat == q);
        let before = window(f, v, (64 * (b - 1)) as nat);
        assert((64 * (b - 1)) as nat + 64 == 64 * b);
        assert forall|t: int| 0 <= t < 64 implies #[trigger] there(t) >= 0 by {
            assert(g(s.x[i * s.d + (q + t)], y[r * s.d + (q + t)]) >= 0);
        }
        lemma_total_nonnegative(64, there);
        assert(window(f, q, 64) == total(64, there));
        assert((s.extend)(block.after_blocks(l, (b - 1) as nat), p, w) == capped(
            block.after_blocks(l, (b - 1) as nat) + total(p.len(), |t: int| g(p[t], w[t])),
        ));
    }
}

/// What a search adds up is the distance: where the centroids lie in the blocked
/// layout of the rows `y`, their vertical dimensions beside it, and distances
/// add up from one over the first dimensions, the sum covers every dimension of
/// point and row once.
pub proof fn law_added_distances_cover_all_dimensions<T>(
    s: PrunedSearch<T>,
    i: int,
    r: int,
    y: Seq<T>,
    g: spec_fn(T, T) -> int,
)
    requires
        0 < s.d <= u32::MAX,
        0 <= r < s.pdx_indices.len(),
        s.pdx_data.len() == s.pdx_indices.len() * s.d,
        s.aux.len() == s.pdx_indices.len() * vertical_part(s.d),
        0 <= i,
        i * s.d + s.d <= s.x.len(),
        0 <= s.until <= vertical_part(s.d),
        adds_up(s.extend, g),
        is_blocked(s.pdx_data, y, s.pdx_indices.len() as int, s.d as int, 1024),
        forall|j: int|
            0 <= j < vertical_part(s.d) ==> #[trigger] s.aux[r * vertical_part(s.d) + j] == y[r
                * s.d + j],
        (s.partial)(i, r) == row_distance(s.x, i, y, r, s.d, s.until as nat, g),
    ensures
        added_distance(s, i, r) == row_distance(s.x, i, y, r, s.d, s.d, g),
{
    let c = r / 1024;
    let l = r % 1024;
    let rows = s.pdx_indices.len() as int;
    let n = block_rows(rows, c);
    let d = s.d as int;
    let v = vertical_part(s.d);
    let until = s.until;
    let f = |t: int| g(s.x[i * s.d + t], y[r * s.d + t]);
    let block = s.point(i).block(c, s.partial_row(i, c));
    lemma_split(s.d);
    let blocks = block.blocks();
    let h = horizontal_part(s.d);
    assert(64 * blocks == h);
    assert(1024 * c + l == r && 0 <= l < n);
    assert forall|t: int| #[trigger] f(t) >= 0 by {
        assert(g(s.x[i * s.d + t], y[r * s.d + t]) >= 0);
    }
    lemma_after_blocks(s, i, r, y, g, blocks);
    let zero = |t: int| f(0 + t);
    lemma_total_congruent(until as nat, f, zero);
    lemma_total_congruent(s.d, f, zero);
    lemma_window_joins(f, 0, until as nat, (d - until) as nat);
    lemma_window_joins(f, until, (v - until) as nat, h);
    assert(until as nat + (d - until) as nat == s.d);
    assert((v - until) as nat + h == (d - until) as nat);
    let middle = |t: int| f(until + t);
    let end = |t: int| f(v + t);
    lemma_total_nonnegative((v - until) as nat, middle);
    lemma_total_nonnegative(h, end);
    assert(window(f, v, h) == total(h, end));
    assert(0 <= i * d && 0 <= l * v && l * v + v <= n * v && 0 <= 1024 * c * v && 1024 * c * v + n
        * v <= rows * v && 1024 * c * v + l * v == r * v) by (nonlinear_arith)
        requires
            0 <= i,
            0 < d,
            0 <= c,
            0 <= l,
            l + 1 <= n,
            0 < v,
            1024 * c + n <= rows,
            1024 * c + l == r,
    ;
    if until < v {
        let p = block.query.subrange(until, v);
        let w = block.aux.subrange(l * v + until, l * v + v);
        let here = |t: int| g(p[t], w[t]);
        assert forall|t: int| 0 <= t < v - until implies #[trigger] here(t) == middle(t) by {
            let j = until + t;
            assert(w[t] == s.aux[r * v + j]);
            assert(p[t] == s.x[i * d + j]);
        }
        lemma_total_congruent((v - until) as nat, here, middle);
        assert((s.extend)(block.after_blocks(l, blocks), p, w) == capped(
            block.after_blocks(l, blocks) + total(p.len(), |t: int| g(p[t], w[t])),
        ));
    } else {
        crate::arith::lemma_total_step(0, middle);
    }
}

/// A pruned search finds the nearest centroid by distance over all dimensions:
/// where the layout holds the centroids `y` in their order, distances add up,
/// and thresholds drop nothing nearer, the distance that is found is the
/// smallest of the distances between the point and the searched centroids and
/// of that to the centroid that was known.
pub proof fn law_pruned_search_finds_the_nearest_row<T>(
    s: PrunedSearch<T>,
    i: int,
    known: KnnCandidate,
    y: Seq<T>,
    g: spec_fn(T, T) -> int,
)
    requires
        0 < s.n_y <= s.pdx_indices.len() <= u32::MAX,
        s.n_y == s.pdx_indices.len() || s.n_y % 1024 == 0,
        forall|r: int| 0 <= r < s.pdx_indices.len() ==> #[trigger] s.pdx_indices[r] == r,
        drops_only_farther(s.thr),
        0 < s.d <= u32::MAX,
        s.pdx_data.len() == s.pdx_indices.len() * s.d,
        s.aux.len() == s.pdx_indices.len() * vertical_part(s.d),
        0 <= i,
        i * s.d + s.d <= s.x.len(),
        0 <= s.until <= vertical_part(s.d),
        adds_up(s.extend, g),
        is_blocked(s.pdx_data, y, s.pdx_indices.len() as int, s.d as int, 1024),
        forall|r: int, j: int|
            0 <= r < s.n_y && 0 <= j < vertical_part(s.d) ==> #[trigger] s.aux[r * vertical_part(
                s.d,
            ) + j] == y[r * s.d + j],
        forall|r: int|
            0 <= r < s.n_y ==> #[trigger] (s.partial)(i, r) == row_distance(s.x, i, y, r, s.d, s.until as nat, g),
        known.index < s.pdx_indices.len(),
        (s.full)(i, known.index) == row_distance(s.x, i, y, known.index as int, s.d, s.d, g),
    ensures
        s.found(i, known).index == known.index || s.found(i, known).index < s.n_y,
        s.found(i, known).distance == row_distance(s.x, i, y, s.found(i, known).index as int, s.d, s.d, g),
        forall|r: int|
            0 <= r < s.n_y || r == known.index ==> s.found(i, known).distance <= #[trigger] row_distance(s.x, i, y, r, s.d, s.d, g),
{
    assert forall|a: u32, p: Seq<T>, q: Seq<T>| #[trigger] (s.extend)(a, p, q) >= a by {
        let h = |t: int| g(p[t], q[t]);
        assert forall|t: int| 0 <= t < p.len() implies #[trigger] h(t) >= 0 by {
            assert(g(p[t], q[t]) >= 0);
        }
        lemma_total_nonnegative(p.len(), h);
    }
    assert forall|r: int| 0 <= r < s.n_y implies #[trigger] added_distance(s, i, r) == row_distance(s.x, i, y, r, s.d, s.d, g) by {
        assert((s.partial)(i, r) == row_distance(s.x, i, y, r, s.d, s.until as nat, g));
        law_added_distances_cover_all_dimensions(s, i, r, y, g);
    }
    law_pruned_search_finds_the_nearest(s, i, known);
    let found = s.found(i, known);
    if !(found == (KnnCandidate { index: known.index, distance: (s.full)(i, known.index) })) {
        let r = choose|r: int|
            0 <= r < s.n_y && found == (KnnCandidate {
                index: s.pdx_indices[r],
                distance: #[trigger] added_distance(s, i, r),
            }) && forall|e: int|
                0 <= e < r ==> found.distance < #[trigger] added_distance(s, i, e);
        assert(found.index == r);
    }
    assert forall|r: int| 0 <= r < s.n_y || r == known.index implies found.distance <= #[trigger] row_distance(s.x, i, y, r, s.d, s.d, g) by {
        if 0 <= r < s.n_y {
            assert(found.distance <= added_distance(s, i, r));
        }
    }
}

} // verus!
