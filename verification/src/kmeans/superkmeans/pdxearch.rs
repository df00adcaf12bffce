//! Nearest row of a blocked matrix, with rows dropped as soon as their partial
//! distance is too large.
//!
//! Distances are integer keys that are ordered as the distances they stand
//! for. Two functions are given: `extend` adds to a distance that of two slices,
//! and `threshold` gives, for the best distance so far and a number of visited
//! dimensions, the distance from which on a row is dropped.
use vstd::prelude::*;
use crate::functions::{
    is_function_up_to, is_slice_function2, lemma_value_on2, value_of2, value_on2,
};
use crate::kmeans::superkmeans::common::{KnnCandidate, H_DIM_SIZE};
use crate::kmeans::superkmeans::computers::{evaluate_predicate, init_positions_array};
use crate::kmeans::superkmeans::layout::{
    block_rows, horizontal_part, lemma_split, vertical_part, IndexPdxIvf, PdxCluster,
};
use crate::quantization::pdx_u8::pruning::{
    law_lanes_are_places,
    kept, lanes_where, lemma_kept_narrows, lemma_lanes_where, lemma_lanes_where_congruent,
    lemma_lanes_where_empty,
};

verus! {

/// A query against the rows of one block.
#[verifier::reject_recursive_types(T)]
pub struct BlockSearch<T> {
    pub query: Seq<T>,
    /// The block: `rows * dims` elements in the blocked layout.
    pub data: Seq<T>,
    /// The vertical dimensions of the block, row by row.
    pub aux: Seq<T>,
    /// The row numbers of the block.
    pub indices: Seq<u32>,
    pub rows: nat,
    pub dims: nat,
    /// The partial distances that the search starts from, over the first
    /// `until` dimensions.
    pub start: Seq<u32>,
    pub until: int,
    pub extend: spec_fn(u32, Seq<T>, Seq<T>) -> u32,
    pub thr: spec_fn(u32, u32) -> u32,
}

impl<T> BlockSearch<T> {
    pub open spec fn wf(self) -> bool {
        &&& 0 < self.dims <= u32::MAX
        &&& self.query.len() == self.dims
        &&& self.rows <= u32::MAX
        &&& self.data.len() == self.rows * self.dims
        &&& self.aux.len() == self.rows * vertical_part(self.dims)
        &&& self.indices.len() == self.rows
        &&& self.start.len() == self.rows
        &&& 0 <= self.until <= vertical_part(self.dims)
    }

    /// Distance of row `l` after the first `b` horizontal blocks.
    pub open spec fn after_blocks(self, l: int, b: nat) -> u32
        decreases b,
    {
        let v = vertical_part(self.dims);
        if b == 0 {
            self.start[l]
        } else {
            let q = v + 64 * (b - 1);
            let x = q * self.rows + 64 * l;
            (self.extend)(
                self.after_blocks(l, (b - 1) as nat),
                self.query.subrange(q, q + 64),
                self.data.subrange(x, x + 64),
            )
        }
    }

    /// Row `l` passes the tests before the first and after each of the first
    /// `b` horizontal blocks.
    pub open spec fn passes_blocks(self, l: int, best: u32, b: nat) -> bool
        decreases b,
    {
        &&& b > 0 ==> self.passes_blocks(l, best, (b - 1) as nat)
        &&& self.after_blocks(l, b) < (self.thr)(best, (self.until + 64 * b) as u32)
    }

    pub open spec fn blocks(self) -> nat {
        horizontal_part(self.dims) / 64
    }

    /// Distance of row `l` over all dimensions.
    pub open spec fn total(self, l: int) -> u32 {
        let v = vertical_part(self.dims);
        let h = self.after_blocks(l, self.blocks());
        if self.until < v {
            (self.extend)(
                h,
                self.query.subrange(self.until, v),
                self.aux.subrange(l * v + self.until, l * v + v),
            )
        } else {
            h
        }
    }

    /// Row `l` passes every test.
    pub open spec fn passes(self, l: int, best: u32) -> bool {
        &&& self.passes_blocks(l, best, self.blocks())
        &&& self.until < vertical_part(self.dims) ==> self.total(l) < (self.thr)(
            best,
            self.dims as u32,
        )
    }

    /// The rows that pass the first test.
    pub open spec fn first_list(self, best: u32) -> Seq<u32> {
        lanes_where(self.rows, |l: int| self.passes_blocks(l, best, 0))
    }

    /// The rows that pass every test. Where only the row `previous` passes the
    /// first one, nothing is left to be found.
    pub open spec fn survivors(self, best: u32, previous: u32) -> Seq<u32> {
        let first = self.first_list(best);
        if first.len() == 1 && self.indices[first[0] as int] == previous {
            Seq::empty()
        } else {
            lanes_where(self.rows, |l: int| self.passes(l, best))
        }
    }

    /// The best candidate after the first `n` of `list`: a row replaces it when
    /// its distance is smaller.
    pub open spec fn best_of(self, list: Seq<u32>, from: KnnCandidate, n: nat) -> KnnCandidate
        decreases n,
    {
        if n == 0 {
            from
        } else {
            let best = self.best_of(list, from, (n - 1) as nat);
            let l = list[n - 1] as int;
            if self.total(l) < best.distance {
                KnnCandidate { index: self.indices[l], distance: self.total(l) }
            } else {
                best
            }
        }
    }

    /// The best candidate after the block, when it was `from` before and the
    /// row `previous` was the best of an earlier search.
    pub open spec fn result(self, from: KnnCandidate, previous: u32) -> KnnCandidate {
        let list = self.survivors(from.distance, previous);
        self.best_of(list, from, list.len())
    }
}

proof fn lemma_passes_blocks_antitone<T>(s: BlockSearch<T>, l: int, best: u32, a: nat, b: nat)
    requires
        a <= b,
        s.passes_blocks(l, best, b),
    ensures
        s.passes_blocks(l, best, a),
    decreases b,
{
    if a < b {
        lemma_passes_blocks_antitone(s, l, best, a, (b - 1) as nat);
    }
}

/// A slice of a block lies inside it.
proof fn lemma_block_slice(v: int, d: int, rows: int, l: int, b: int)
    requires
        0 <= l < rows,
        0 <= v,
        0 <= b,
        v + 64 * b + 64 <= d,
    ensures
        0 <= (v + 64 * b) * rows,
        (v + 64 * b) * rows + 64 * l + 64 <= rows * d,
{
    let q = v + 64 * b;
    assert(0 <= q * rows && q * rows + 64 * l + 64 <= rows * d) by (nonlinear_arith)
        requires
            0 <= l,
            l + 1 <= rows,
            0 <= q,
            q + 64 <= d,
    ;
}

/// The distances of the listed rows become those after one more step.
proof fn lemma_step_narrows(
    rows: nat,
    distances: Seq<u32>,
    value: spec_fn(int) -> u32,
    threshold: u32,
    p: spec_fn(int) -> bool,
    q: spec_fn(int) -> bool,
)
    requires
        rows <= u32::MAX,
        forall|l: int| 0 <= l < rows && #[trigger] p(l) ==> distances[l] == value(l),
        forall|l: int| 0 <= l < rows ==> (#[trigger] q(l) <==> p(l) && value(l) < threshold),
    ensures
        kept(lanes_where(rows, p), distances, threshold) == lanes_where(rows, q),
{
    let t = |l: int| value(l) < threshold;
    lemma_kept_narrows(rows, p, t, distances, threshold);
    let both = |l: int| p(l) && t(l);
    assert forall|l: int| 0 <= l < rows implies #[trigger] both(l) == q(l) by {}
    lemma_lanes_where_congruent(rows, both, q);
}

/// Where a listed row stands in the list, and that no other place lists it.
proof fn lemma_listed(positions: Seq<u32>, n: int, rows: nat, p: spec_fn(int) -> bool)
    requires
        0 <= n <= positions.len(),
        rows <= u32::MAX,
        positions.take(n) == lanes_where(rows, p),
    ensures
        forall|k: int| 0 <= k < n ==> #[trigger] positions[k] < rows && p(positions[k] as int),
        forall|k: int, m: int|
            0 <= k < m < n ==> #[trigger] positions[k] < #[trigger] positions[m],
        forall|l: int|
            0 <= l < rows && #[trigger] p(l) ==> exists|k: int|
                0 <= k < n && #[trigger] positions[k] == l,
{
    let list = lanes_where(rows, p);
    lemma_lanes_where(rows, p);
    assert forall|k: int| 0 <= k < n implies #[trigger] positions[k] < rows && p(
        positions[k] as int,
    ) by {
        assert(positions.take(n)[k] == list[k]);
    }
    assert forall|k: int, m: int| 0 <= k < m < n implies #[trigger] positions[k]
        < #[trigger] positions[m] by {
        assert(positions.take(n)[k] == list[k]);
        assert(positions.take(n)[m] == list[m]);
    }
    assert forall|l: int| 0 <= l < rows && #[trigger] p(l) implies exists|k: int|
        0 <= k < n && #[trigger] positions[k] == l by {
        assert(list.contains(l as u32));
        let k = choose|k: int| 0 <= k < list.len() && list[k] == l as u32;
        assert(positions.take(n)[k] == list[k]);
        assert(positions[k] == l);
    }
}

/// Adds one slice per listed row to the distances: for row `l`, `width`
/// elements of `data` from `offset + l * pitch` on, against `query` from
/// `query_at` on.
fn accumulate<T, A: Fn(u32, &[T], &[T]) -> u32>(
    query: &[T],
    query_at: usize,
    width: usize,
    data: &[T],
    offset: usize,
    pitch: usize,
    positions: &[u32],
    n: usize,
    distances: &mut Vec<u32>,
    extend: &A,
)
    requires
        is_slice_function2(*extend),
        query_at + width <= query@.len(),
        n <= positions@.len(),
        data@.len() <= usize::MAX,
        forall|k: int|
            0 <= k < n ==> #[trigger] positions@[k] < old(distances)@.len() && offset
                + positions@[k] * pitch + width <= data@.len(),
        forall|k: int, m: int|
            0 <= k < m < n ==> #[trigger] positions@[k] < #[trigger] positions@[m],
    ensures
        final(distances)@.len() == old(distances)@.len(),
        forall|k: int|
            0 <= k < n ==> final(distances)@[#[trigger] positions@[k] as int] == value_on2(
                *extend,
                old(distances)@[positions@[k] as int],
                query@.subrange(query_at as int, query_at + width),
                data@.subrange(
                    offset + positions@[k] * pitch,
                    offset + positions@[k] * pitch + width,
                ),
            ),
{
    let ghost before = distances@;
    let ghost q = query@.subrange(query_at as int, query_at + width);
    proof {
        assert(query@.len() == query.len());
    }
    for k in 0..n
        invariant
            is_slice_function2(*extend),
            query_at + width <= query@.len(),
            query@.len() <= usize::MAX,
            q == query@.subrange(query_at as int, query_at + width),
            n <= positions@.len(),
            data@.len() <= usize::MAX,
            distances@.len() == before.len(),
            forall|k: int|
                0 <= k < n ==> #[trigger] positions@[k] < before.len() && offset + positions@[k]
                    * pitch + width <= data@.len(),
            forall|k: int, m: int|
                0 <= k < m < n ==> #[trigger] positions@[k] < #[trigger] positions@[m],
            forall|m: int|
                0 <= m < k ==> distances@[#[trigger] positions@[m] as int] == value_on2(
                    *extend,
                    before[positions@[m] as int],
                    q,
                    data@.subrange(
                        offset + positions@[m] * pitch,
                        offset + positions@[m] * pitch + width,
                    ),
                ),
            forall|m: int|
                k <= m < n ==> distances@[#[trigger] positions@[m] as int]
                    == before[positions@[m] as int],
    {
        let l: usize = positions[k] as usize;
        proof {
            assert(l * pitch >= 0) by (nonlinear_arith);
            assert(positions@[k as int] < before.len());
        }
        let at: usize = offset + l * pitch;
        let xs = &data[at..at + width];
        let qs = &query[query_at..query_at + width];
        let acc: u32 = distances[l];
        let r: u32 = extend(acc, qs, xs);
        proof {
            lemma_value_on2(*extend, acc, qs, xs, r);
        }
        let ghost prev = distances@;
        distances[l] = r;
        proof {
            assert forall|m: int| 0 <= m < k + 1 implies distances@[
                #[trigger] positions@[m] as int] == value_on2(
                *extend,
                before[positions@[m] as int],
                q,
                data@.subrange(
                    offset + positions@[m] * pitch,
                    offset + positions@[m] * pitch + width,
                ),
            ) by {
                if m < k {
                    assert(positions@[m] < positions@[k as int]);
                    assert(prev[positions@[m] as int] == distances@[positions@[m] as int]);
                }
            }
            assert forall|m: int| k + 1 <= m < n implies distances@[#[trigger] positions@[m] as int]
                == before[positions@[m] as int] by {
                assert(positions@[k as int] < positions@[m]);
            }
        }
    }
}

/// Drops the rows of a block that cannot be the nearest. Returns how many rows
/// pass the first test, and how many pass all; these stand first in
/// `positions`, with their distances in `distances`.
fn prune<T: Copy, A: Fn(u32, &[T], &[T]) -> u32, H: Fn(u32, u32) -> u32>(
    query: &[T],
    data: &[T],
    aux: &[T],
    indices: &[u32],
    num_dimensions: u32,
    vertical: u32,
    until: u32,
    best: u32,
    previous: u32,
    positions: &mut Vec<u32>,
    distances: &mut Vec<u32>,
    extend: &A,
    threshold: &H,
    Ghost(s): Ghost<BlockSearch<T>>,
) -> (r: (usize, usize))
    requires
        s.wf(),
        s.query == query@,
        s.data == data@,
        s.aux == aux@,
        s.indices == indices@,
        s.dims == num_dimensions,
        s.start == old(distances)@,
        s.until == until,
        s.rows == indices@.len(),
        s.rows <= old(positions)@.len(),
        s.extend == (|a: u32, x: Seq<T>, y: Seq<T>| value_on2(*extend, a, x, y)),
        s.thr == (|a: u32, b: u32| value_of2(*threshold, a, b)),
        vertical == vertical_part(num_dimensions as nat),
        is_slice_function2(*extend),
        is_function_up_to(*threshold, num_dimensions as int),
    ensures
        final(positions)@.len() == old(positions)@.len(),
        final(distances)@.len() == old(distances)@.len(),
        r.0 == s.first_list(best).len(),
        r.1 == s.survivors(best, previous).len(),
        r.1 <= s.rows,
        final(positions)@.take(r.1 as int) == s.survivors(best, previous),
        forall|k: int|
            0 <= k < r.1 ==> #[trigger] final(positions)@[k] < s.rows
                && final(distances)@[final(positions)@[k] as int] == s.total(
                final(positions)@[k] as int,
            ),
{
    let rows: usize = indices.len();
    let ghost m = s.rows;
    let ghost v = vertical as int;
    let ghost pos_len = positions@.len();
    let ghost p0 = |l: int| s.passes_blocks(l, best, 0);
    proof {
        lemma_split(s.dims);
        assert(data@.len() == data.len());
        assert(aux@.len() == aux.len());
    }
    let first_threshold: u32 = threshold(best, until);
    let initial: usize = init_positions_array(positions, distances, first_threshold, rows);
    proof {
        let below = |l: int| distances@[l] < first_threshold;
        assert forall|l: int| 0 <= l < m implies #[trigger] below(l) == p0(l) by {}
        lemma_lanes_where_congruent(m, below, p0);
        assert(positions@.take(initial as int) == s.first_list(best));
        lemma_lanes_where(m, p0);
        lemma_listed(positions@, initial as int, m, p0);
    }
    if initial == 1 && indices[positions[0] as usize] == previous {
        proof {
            assert(positions@.take(initial as int)[0] == positions@[0]);
            assert(positions@.take(0) =~= Seq::<u32>::empty());
        }
        return (initial, 0);
    }
    proof {
        if initial == 1 {
            assert(positions@.take(initial as int)[0] == positions@[0]);
        }
    }
    let horizontal: usize = (num_dimensions - vertical) as usize;
    let mut h: usize = 0;
    let ghost mut b: nat = 0;
    let mut cur: usize = initial;
    while cur > 0 && h < horizontal
        invariant
            s.wf(),
            s.query == query@,
            s.data == data@,
            s.indices == indices@,
            s.dims == num_dimensions,
            s.until == until,
            s.rows == rows,
            m == s.rows,
            v == vertical,
            s.extend == (|a: u32, x: Seq<T>, y: Seq<T>| value_on2(*extend, a, x, y)),
            s.thr == (|a: u32, b: u32| value_of2(*threshold, a, b)),
            vertical == vertical_part(num_dimensions as nat),
            horizontal == horizontal_part(num_dimensions as nat),
            horizontal % 64 == 0,
            vertical + horizontal == num_dimensions,
            is_slice_function2(*extend),
            is_function_up_to(*threshold, num_dimensions as int),
            data@.len() <= usize::MAX,
            rows <= pos_len,
            positions@.len() == pos_len,
            distances@.len() == rows,
            h <= horizontal,
            h == 64 * b,
            cur <= rows,
            positions@.take(cur as int) == lanes_where(m, |l: int| s.passes_blocks(l, best, b)),
            forall|l: int|
                0 <= l < m && #[trigger] s.passes_blocks(l, best, b) ==> distances@[l]
                    == s.after_blocks(l, b),
        decreases horizontal - h,
    {
        let ghost p = |l: int| s.passes_blocks(l, best, b);
        let ghost q = |l: int| s.passes_blocks(l, best, b + 1);
        let ghost before = distances@;
        let query_at: usize = vertical as usize + h;
        proof {
            lemma_listed(positions@, cur as int, m, p);
            assert forall|k: int| 0 <= k < cur implies #[trigger] positions@[k] < distances@.len()
                && query_at * rows + positions@[k] * 64 + 64 <= data@.len() by {
                lemma_block_slice(v, s.dims as int, m as int, positions@[k] as int, b as int);
            }
            lemma_block_slice(v, s.dims as int, m as int, positions@[0] as int, b as int);
        }
        accumulate(
            query,
            query_at,
            H_DIM_SIZE,
            data,
            query_at * rows,
            H_DIM_SIZE,
            positions,
            cur,
            distances,
            extend,
        );
        h += H_DIM_SIZE;
        let t: u32 = threshold(best, until + h as u32);
        let ghost value = |l: int| s.after_blocks(l, b + 1);
        proof {
            assert forall|l: int| 0 <= l < m && #[trigger] p(l) implies distances@[l] == value(
                l,
            ) by {
                let k = choose|k: int| 0 <= k < cur && #[trigger] positions@[k] == l;
                assert(before[l] == s.after_blocks(l, b));
                assert(distances@[positions@[k] as int] == distances@[l]);
                let at = query_at * rows + positions@[k] * 64;
                assert(at == (v + 64 * b) * m + 64 * l);
            }
            lemma_step_narrows(m, distances@, value, t, p, q);
        }
        cur = evaluate_predicate(positions, distances, t, cur);
        proof {
            assert forall|l: int| 0 <= l < m && #[trigger] s.passes_blocks(
                l,
                best,
                b + 1,
            ) implies distances@[l] == s.after_blocks(l, b + 1) by {
                assert(p(l));
            }
            b = b + 1;
        }
    }
    let ghost all = s.blocks();
    let ghost pall = |l: int| s.passes_blocks(l, best, all);
    proof {
        let p = |l: int| s.passes_blocks(l, best, b);
        if h < horizontal {
            assert forall|l: int| 0 <= l < m && #[trigger] pall(l) implies p(l) by {
                lemma_passes_blocks_antitone(s, l, best, b, all);
            }
            lemma_lanes_where_empty(m, p, pall);
            lemma_lanes_where(m, pall);
            assert(positions@.take(cur as int) =~= lanes_where(m, pall));
            assert forall|l: int| 0 <= l < m && #[trigger] pall(l) implies distances@[l]
                == s.after_blocks(l, all) by {
                assert(lanes_where(m, pall).contains(l as u32));
            }
        } else {
            assert(b == all);
            assert(p =~= pall);
        }
    }
    let ghost pend = |l: int| s.passes(l, best);
    if cur > 0 && until < vertical {
        let left: usize = (vertical - until) as usize;
        let ghost before = distances@;
        proof {
            lemma_listed(positions@, cur as int, m, pall);
            assert forall|k: int| 0 <= k < cur implies #[trigger] positions@[k] < distances@.len()
                && until + positions@[k] * vertical + left <= aux@.len() by {
                let l = positions@[k] as int;
                assert(l * v + v <= m * v) by (nonlinear_arith)
                    requires
                        l + 1 <= m,
                        v >= 0,
                ;
            }
        }
        accumulate(
            query,
            until as usize,
            left,
            aux,
            until as usize,
            vertical as usize,
            positions,
            cur,
            distances,
            extend,
        );
        let t: u32 = threshold(best, num_dimensions);
        let ghost value = |l: int| s.total(l);
        proof {
            assert forall|l: int| 0 <= l < m && #[trigger] pall(l) implies distances@[l] == value(
                l,
            ) by {
                let k = choose|k: int| 0 <= k < cur && #[trigger] positions@[k] == l;
                assert(before[l] == s.after_blocks(l, all));
                assert(distances@[positions@[k] as int] == distances@[l]);
            }
            lemma_step_narrows(m, distances@, value, t, pall, pend);
        }
        cur = evaluate_predicate(positions, distances, t, cur);
        proof {
            lemma_listed(positions@, cur as int, m, pend);
            assert forall|k: int| 0 <= k < cur implies #[trigger] positions@[k] < s.rows
                && distances@[positions@[k] as int] == s.total(positions@[k] as int) by {
                let l = positions@[k] as int;
                assert(pend(l));
                assert(pall(l));
            }
        }
    } else {
        proof {
            if cur > 0 {
                assert forall|l: int| 0 <= l < m implies #[trigger] pall(l) == pend(l) by {}
                lemma_lanes_where_congruent(m, pall, pend);
                lemma_listed(positions@, cur as int, m, pend);
                assert forall|k: int| 0 <= k < cur implies #[trigger] positions@[k] < s.rows
                    && distances@[positions@[k] as int] == s.total(positions@[k] as int) by {
                    let l = positions@[k] as int;
                    assert(pend(l));
                    assert(pall(l));
                }
            } else {
                assert forall|l: int| 0 <= l < m && #[trigger] pend(l) implies pall(l) by {}
                lemma_lanes_where_empty(m, pall, pend);
                assert(positions@.take(cur as int) =~= lanes_where(m, pend));
            }
        }
    }
    proof {
        assert(positions@.take(cur as int) == lanes_where(m, pend));
        lemma_lanes_where(m, pend);
        assert(s.survivors(best, previous) == lanes_where(m, pend));
    }
    (initial, cur)
}

/// Lets each of the first `n_not_pruned` listed rows replace the best candidate
/// when its distance is smaller.
fn set_best_candidate<T>(
    indices: &[u32],
    positions: &[u32],
    distances: &[u32],
    n_not_pruned: usize,
    best: &mut KnnCandidate,
    Ghost(s): Ghost<BlockSearch<T>>,
)
    requires
        s.indices == indices@,
        s.rows == indices@.len(),
        distances@.len() == indices@.len(),
        n_not_pruned <= positions@.len(),
        forall|k: int|
            0 <= k < n_not_pruned ==> #[trigger] positions@[k] < s.rows
                && distances@[positions@[k] as int] == s.total(positions@[k] as int),
    ensures
        *final(best) == s.best_of(
            positions@.take(n_not_pruned as int),
            *old(best),
            n_not_pruned as nat,
        ),
{
    let ghost from = *best;
    let ghost list = positions@.take(n_not_pruned as int);
    for k in 0..n_not_pruned
        invariant
            s.indices == indices@,
            s.rows == indices@.len(),
            distances@.len() == indices@.len(),
            n_not_pruned <= positions@.len(),
            list == positions@.take(n_not_pruned as int),
            forall|k: int|
                0 <= k < n_not_pruned ==> #[trigger] positions@[k] < s.rows
                    && distances@[positions@[k] as int] == s.total(positions@[k] as int),
            *best == s.best_of(list, from, k as nat),
    {
        proof {
            assert(list[k as int] == positions@[k as int]);
        }
        let l: usize = positions[k] as usize;
        let dist: u32 = distances[l];
        if dist < best.distance {
            *best = KnnCandidate { index: indices[l], distance: dist };
        }
    }
}

/// A query against a blocked matrix.
#[verifier::reject_recursive_types(T)]
pub struct MatrixSearch<T> {
    pub query: Seq<T>,
    pub pdx_data: Seq<T>,
    pub pdx_indices: Seq<u32>,
    pub aux: Seq<T>,
    pub rows: nat,
    pub dims: nat,
    /// How many dimensions the partial distances cover.
    pub until: int,
    pub extend: spec_fn(u32, Seq<T>, Seq<T>) -> u32,
    pub thr: spec_fn(u32, u32) -> u32,
}

/// The search of `query` among the rows of a matrix, with given functions.
pub open spec fn matrix_search<T, A: Fn(u32, &[T], &[T]) -> u32, H: Fn(u32, u32) -> u32>(
    query: Seq<T>,
    pdx_data: Seq<T>,
    pdx_indices: Seq<u32>,
    aux: Seq<T>,
    dims: nat,
    until: int,
    extend: A,
    threshold: H,
) -> MatrixSearch<T> {
    MatrixSearch {
        query,
        pdx_data,
        pdx_indices,
        aux,
        rows: pdx_indices.len(),
        dims,
        until,
        extend: |a: u32, x: Seq<T>, y: Seq<T>| value_on2(extend, a, x, y),
        thr: |a: u32, b: u32| value_of2(threshold, a, b),
    }
}

impl<T> MatrixSearch<T> {
    /// The query against block `c`, from the partial distances `start` on.
    pub open spec fn block(self, c: int, start: Seq<u32>) -> BlockSearch<T> {
        let n = block_rows(self.rows as int, c);
        let d = self.dims as int;
        let v = vertical_part(self.dims);
        BlockSearch {
            query: self.query,
            data: self.pdx_data.subrange(1024 * c * d, 1024 * c * d + n * d),
            aux: self.aux.subrange(1024 * c * v, 1024 * c * v + n * v),
            indices: self.pdx_indices.subrange(1024 * c, 1024 * c + n),
            rows: n as nat,
            dims: self.dims,
            start,
            until: self.until,
            extend: self.extend,
            thr: self.thr,
        }
    }

    /// The partial distances of block `c`, when those of `first` and the
    /// following blocks stand one after another in `partial`.
    pub open spec fn segment(self, partial: Seq<u32>, first: int, c: int) -> Seq<u32> {
        let at = 1024 * (c - first);
        partial.subrange(at, at + block_rows(self.rows as int, c))
    }

    /// The best candidate after the blocks from `first` to `end`.
    pub open spec fn best(
        self,
        from: KnnCandidate,
        previous: u32,
        partial: Seq<u32>,
        first: int,
        end: int,
    ) -> KnnCandidate
        decreases end - first,
    {
        if end <= first {
            from
        } else {
            let best = self.best(from, previous, partial, first, end - 1);
            self.block(end - 1, self.segment(partial, first, end - 1)).result(best, previous)
        }
    }

    /// How many rows pass the first test of their block, over the blocks from
    /// `first` to `end`.
    pub open spec fn tested(
        self,
        from: KnnCandidate,
        previous: u32,
        partial: Seq<u32>,
        first: int,
        end: int,
    ) -> nat
        decreases end - first,
    {
        if end <= first {
            0
        } else {
            let best = self.best(from, previous, partial, first, end - 1);
            self.tested(from, previous, partial, first, end - 1) + self.block(
                end - 1,
                self.segment(partial, first, end - 1),
            ).first_list(best.distance).len()
        }
    }

    pub open spec fn wf(self) -> bool {
        &&& 0 < self.dims <= u32::MAX
        &&& self.rows <= u32::MAX
        &&& self.query.len() == self.dims
        &&& self.pdx_data.len() == self.rows * self.dims
        &&& self.aux.len() == self.rows * vertical_part(self.dims)
        &&& self.pdx_indices.len() == self.rows
        &&& 0 <= self.until <= vertical_part(self.dims)
    }
}

/// The parts of a block lie inside the buffers of its matrix.
proof fn lemma_block_in_matrix<T>(s: MatrixSearch<T>, c: int)
    requires
        s.wf(),
        0 <= c,
        1024 * c < s.rows,
    ensures
        ({
            let n = block_rows(s.rows as int, c);
            let d = s.dims as int;
            let v = vertical_part(s.dims);
            &&& 0 < n <= 1024
            &&& 1024 * c + n <= s.rows
            &&& 0 <= 1024 * c * d
            &&& 0 <= n * d
            &&& 1024 * c * d + n * d <= s.pdx_data.len()
            &&& 0 <= 1024 * c * v
            &&& 0 <= n * v
            &&& 1024 * c * v + n * v <= s.aux.len()
        }),
{
    lemma_split(s.dims);
    let n = block_rows(s.rows as int, c);
    let d = s.dims as int;
    let v = vertical_part(s.dims);
    let r = s.rows as int;
    let a = 1024 * c;
    assert(0 <= a * d && 0 <= n * d && a * d + n * d <= r * d) by (nonlinear_arith)
        requires
            0 <= a,
            0 <= n,
            a + n <= r,
            d > 0,
    ;
    assert(0 <= a * v && 0 <= n * v && a * v + n * v <= r * v) by (nonlinear_arith)
        requires
            0 <= a,
            0 <= n,
            a + n <= r,
            v > 0,
    ;
}

/// Searches the blocks from `start_cluster` to `end_cluster` for a row that is
/// nearer than `prev_pruning_threshold`. `partial_pruning_distances` holds the
/// distances of their rows over the first `computed_distance_until` dimensions.
/// Gives the best candidate, and how many rows passed the first test.
pub fn top1_partial_search<T: Copy, A: Fn(u32, &[T], &[T]) -> u32, H: Fn(u32, u32) -> u32>(
    index: &IndexPdxIvf,
    pdx_data: &[T],
    pdx_indices: &[u32],
    aux: &[T],
    query: &[T],
    prev_pruning_threshold: u32,
    prev_top_1: u32,
    partial_pruning_distances: &[u32],
    computed_distance_until: u32,
    start_cluster: usize,
    end_cluster: usize,
    extend: &A,
    threshold: &H,
) -> (r: (KnnCandidate, usize))
    requires
        is_slice_function2(*extend),
        is_function_up_to(*threshold, index.num_dimensions as int),
        0 < index.num_dimensions,
        index.describes(pdx_indices@.len() as int, index.num_dimensions as int),
        pdx_indices@.len() <= u32::MAX,
        pdx_data@.len() == pdx_indices@.len() * index.num_dimensions,
        aux@.len() == pdx_indices@.len() * index.num_vertical_dimensions,
        query@.len() == index.num_dimensions,
        computed_distance_until <= index.num_vertical_dimensions,
        start_cluster <= end_cluster <= index.clusters@.len(),
        start_cluster < end_cluster ==> 1024 * (end_cluster - 1 - start_cluster) + block_rows(
            pdx_indices@.len() as int,
            end_cluster - 1,
        ) <= partial_pruning_distances@.len(),
    ensures
        ({
            let s = matrix_search(
                query@,
                pdx_data@,
                pdx_indices@,
                aux@,
                index.num_dimensions as nat,
                computed_distance_until as int,
                *extend,
                *threshold,
            );
            let from = KnnCandidate { index: prev_top_1, distance: prev_pruning_threshold };
            &&& r.0 == s.best(
                from,
                prev_top_1,
                partial_pruning_distances@,
                start_cluster as int,
                end_cluster as int,
            )
            &&& r.1 == s.tested(
                from,
                prev_top_1,
                partial_pruning_distances@,
                start_cluster as int,
                end_cluster as int,
            )
        }),
        r.1 <= 1024 * (end_cluster - start_cluster),
{
    let ghost s = matrix_search(
        query@,
        pdx_data@,
        pdx_indices@,
        aux@,
        index.num_dimensions as nat,
        computed_distance_until as int,
        *extend,
        *threshold,
    );
    let ghost from = KnnCandidate { index: prev_top_1, distance: prev_pruning_threshold };
    let ghost partial = partial_pruning_distances@;
    let ghost first = start_cluster as int;
    let d: usize = index.num_dimensions as usize;
    let v: usize = index.num_vertical_dimensions as usize;
    let mut top = KnnCandidate { index: prev_top_1, distance: prev_pruning_threshold };
    let mut tested: usize = 0;
    let mut positions: Vec<u32> = vec![0u32; 1024];
    for c in start_cluster..end_cluster
        invariant
            s == matrix_search(
                query@,
                pdx_data@,
                pdx_indices@,
                aux@,
                index.num_dimensions as nat,
                computed_distance_until as int,
                *extend,
                *threshold,
            ),
            s.wf(),
            is_slice_function2(*extend),
            is_function_up_to(*threshold, index.num_dimensions as int),
            index.describes(pdx_indices@.len() as int, index.num_dimensions as int),
            pdx_indices@.len() <= u32::MAX,
            d == index.num_dimensions,
            v == index.num_vertical_dimensions,
            computed_distance_until <= v,
            first == start_cluster,
            start_cluster <= c <= end_cluster <= index.clusters@.len(),
            partial == partial_pruning_distances@,
            start_cluster < end_cluster ==> 1024 * (end_cluster - 1 - start_cluster) + block_rows(
                pdx_indices@.len() as int,
                end_cluster - 1,
            ) <= partial.len(),
            positions@.len() == 1024,
            top == s.best(from, prev_top_1, partial, first, c as int),
            tested == s.tested(from, prev_top_1, partial, first, c as int),
            tested <= 1024 * (c - start_cluster),
            c > start_cluster ==> tested <= pdx_indices@.len() - 1024 * start_cluster,
    {
        let block: PdxCluster = index.clusters[c];
        let n: usize = block.num_embeddings as usize;
        let ghost rows = pdx_indices@.len() as int;
        proof {
            assert(index.clusters@[c as int] == block);
            lemma_block_in_matrix(s, c as int);
            assert(pdx_data@.len() == pdx_data.len());
            assert(aux@.len() == aux.len());
            assert(pdx_indices@.len() == pdx_indices.len());
            assert(partial_pruning_distances@.len() == partial_pruning_distances.len());
            assert(block_rows(rows, c as int) <= 1024);
            if c + 1 < end_cluster {
                assert(block_rows(rows, c as int) == 1024);
            }
        }
        let data = &pdx_data[block.data_offset..block.data_offset + n * d];
        let indices = &pdx_indices[block.indices_offset..block.indices_offset + n];
        let block_aux = &aux[block.aux_offset..block.aux_offset + n * v];
        let at: usize = 1024 * (c - start_cluster);
        let mut distances: Vec<u32> = vstd::slice::slice_to_vec(
            &partial_pruning_distances[at..at + n],
        );
        let ghost b = s.block(c as int, s.segment(partial, first, c as int));
        let (initial, left) = prune(
            query,
            data,
            block_aux,
            indices,
            index.num_dimensions,
            index.num_vertical_dimensions,
            computed_distance_until,
            top.distance,
            prev_top_1,
            &mut positions,
            &mut distances,
            extend,
            threshold,
            Ghost(b),
        );
        proof {
            lemma_lanes_where(b.rows, |l: int| b.passes_blocks(l, top.distance, 0));
        }
        tested = tested + initial;
        set_best_candidate::<T>(indices, &positions, &distances, left, &mut top, Ghost(b));
    }
    (top, tested)
}

/// The tested rows are counted block by block: those whose partial distance is
/// below the first threshold for the best candidate before the block.
pub proof fn law_tested_rows_are_counted<T>(
    s: MatrixSearch<T>,
    from: KnnCandidate,
    previous: u32,
    partial: Seq<u32>,
    first: int,
    blocks: nat,
)
    requires
        0 <= first,
    ensures
        s.tested(from, previous, partial, first, first + blocks) == crate::arith::total(
            blocks,
            |b: int|
                crate::arith::places(
                    block_rows(s.rows as int, first + b) as nat,
                    |l: int|
                        s.segment(partial, first, first + b)[l] < (s.thr)(
                            s.best(from, previous, partial, first, first + b).distance,
                            s.until as u32,
                        ),
                ).len() as int,
        ),
    decreases blocks,
{
    let term = |b: int|
        crate::arith::places(
            block_rows(s.rows as int, first + b) as nat,
            |l: int|
                s.segment(partial, first, first + b)[l] < (s.thr)(
                    s.best(from, previous, partial, first, first + b).distance,
                    s.until as u32,
                ),
        ).len() as int;
    if blocks == 0 {
        crate::arith::lemma_total_step(0, term);
    } else {
        let m = (blocks - 1) as nat;
        law_tested_rows_are_counted(s, from, previous, partial, first, m);
        crate::arith::lemma_total_step(m, term);
        let c = first + m;
        let best = s.best(from, previous, partial, first, c);
        let block = s.block(c, s.segment(partial, first, c));
        let p = |l: int| block.passes_blocks(l, best.distance, 0);
        let q = |l: int|
            s.segment(partial, first, first + m)[l] < (s.thr)(
                s.best(from, previous, partial, first, first + m).distance,
                s.until as u32,
            );
        law_lanes_are_places(block.rows, p);
        assert forall|l: int| 0 <= l < block.rows implies #[trigger] p(l) == q(l) by {}
        crate::arith::lemma_places_congruent(block.rows, p, q);
        assert(first + blocks - 1 == c);
    }
}

} // verus!
