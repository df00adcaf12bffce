//! Which slots of a cluster survive the partial-distance tests of a search.
use vstd::prelude::*;
use crate::arith::{lemma_places_step, lemma_total_step, places, total};
use crate::functions::{is_function_up_to, value_of2};
use crate::quantization::pdx_u8::distance_u8::{
    dist_range, lane_at, lemma_dist_range_split, saturated, DistanceU32,
};
use crate::quantization::pdx_u8::layout::{
    horizontal_count, lemma_split_bounds, slot_codes, vertical_count,
};
use crate::quantization::pdx_u8::scan::{
    accumulate_horizontal, accumulate_vertical, lanes_distinct, listed,
};

verus! {

/// How many dimensions a warm-up step adds; the last size repeats.
pub const DIMENSIONS_FETCHING_SIZES: [usize; 20] = [
    16,
    16,
    32,
    32,
    32,
    32,
    64,
    64,
    64,
    64,
    128,
    128,
    128,
    128,
    256,
    256,
    512,
    1024,
    2048,
    16384,
];

pub open spec fn fetch_size(step: int) -> int {
    if step < 2 {
        16
    } else if step < 6 {
        32
    } else if step < 10 {
        64
    } else if step < 14 {
        128
    } else if step < 16 {
        256
    } else if step < 17 {
        512
    } else if step < 18 {
        1024
    } else if step < 19 {
        2048
    } else {
        16384
    }
}

fn fetch_size_at(step: usize) -> (r: usize)
    ensures
        r == fetch_size(step as int),
{
    let i: usize = if step < 19 {
        step
    } else {
        19
    };
    DIMENSIONS_FETCHING_SIZES[i]
}

/// A query against the slots of one cluster: the codes of the query, the
/// cluster buffer, its stride, the number of dimensions, and the number of
/// occupied slots.
pub struct Scan {
    pub query: Seq<u8>,
    pub data: Seq<u8>,
    pub stride: int,
    pub dims: nat,
    pub lanes: nat,
}

impl Scan {
    pub open spec fn wf(self) -> bool {
        &&& 0 < self.dims <= u32::MAX
        &&& self.query.len() == self.dims
        &&& self.lanes <= self.stride
        &&& self.lanes <= u32::MAX
        &&& self.stride * self.dims <= self.data.len()
    }

    /// The code vector in slot `lane`.
    pub open spec fn codes(self, lane: int) -> Seq<u8> {
        slot_codes(self.data, self.stride, lane, self.dims)
    }

    /// Distance of slot `lane` over the first `w` vertical and the first `h`
    /// horizontal dimensions.
    pub open spec fn visited(self, lane: int, w: int, h: int) -> u32 {
        let v = vertical_count(self.dims);
        saturated(
            dist_range(self.query, self.codes(lane), 0, w) + dist_range(
                self.query,
                self.codes(lane),
                v,
                v + h,
            ),
        ) as u32
    }

    /// Distance of slot `lane` over all dimensions.
    pub open spec fn distance(self, lane: int) -> u32 {
        saturated(dist_range(self.query, self.codes(lane), 0, self.dims as int)) as u32
    }

    /// How many of the first `m` slots reach `threshold` over the first `w`
    /// vertical dimensions.
    pub open spec fn prunable(self, m: nat, w: int, threshold: u32) -> nat
        decreases m,
    {
        if m == 0 {
            0
        } else {
            self.prunable((m - 1) as nat, w, threshold) + if self.visited(m - 1, w, 0)
                >= threshold {
                1nat
            } else {
                0
            }
        }
    }

    /// Vertical dimensions visited when the warm-up ends, from `w` on: it takes
    /// steps until `needed` slots can be pruned or no vertical dimension is
    /// left.
    pub open spec fn warm_from(
        self,
        w: int,
        step: int,
        needed: nat,
        worst: u32,
        thr: spec_fn(u32, u32) -> u32,
    ) -> int
        decreases vertical_count(self.dims) - w,
    {
        let v = vertical_count(self.dims);
        if w >= v {
            v
        } else {
            let next = if w + fetch_size(step) <= v {
                w + fetch_size(step)
            } else {
                v
            };
            if self.prunable(self.lanes, next, thr(worst, next as u32)) >= needed {
                next
            } else {
                self.warm_from(next, step + 1, needed, worst, thr)
            }
        }
    }

    /// Slot `lane` passes the tests after the warm-up of `w` dimensions and
    /// after each of the first `blocks` horizontal blocks.
    pub open spec fn alive_h(
        self,
        lane: int,
        w: int,
        worst: u32,
        thr: spec_fn(u32, u32) -> u32,
        blocks: nat,
    ) -> bool
        decreases blocks,
    {
        &&& blocks > 0 ==> self.alive_h(lane, w, worst, thr, (blocks - 1) as nat)
        &&& self.visited(lane, w, 64 * (blocks as int)) < thr(worst, (w + 64 * blocks) as u32)
    }

    /// Vertical dimensions visited after `steps` pruning steps from `w`.
    pub open spec fn vertical_after(self, w: int, steps: nat) -> int {
        let v = vertical_count(self.dims);
        if w + 64 * steps <= v {
            w + 64 * steps
        } else {
            v
        }
    }

    /// Slot `lane` passes every horizontal test and the tests after each of
    /// the first `steps` vertical steps.
    pub open spec fn alive_v(
        self,
        lane: int,
        w: int,
        worst: u32,
        thr: spec_fn(u32, u32) -> u32,
        steps: nat,
    ) -> bool
        decreases steps,
    {
        let h = horizontal_count(self.dims);
        if steps == 0 {
            self.alive_h(lane, w, worst, thr, h / 64)
        } else {
            let u = self.vertical_after(w, steps);
            &&& self.alive_v(lane, w, worst, thr, (steps - 1) as nat)
            &&& self.visited(lane, u, h as int) < thr(worst, (u + h) as u32)
        }
    }

    /// Number of vertical pruning steps that remain after `w` dimensions.
    pub open spec fn steps_left(self, w: int) -> nat {
        ((vertical_count(self.dims) - w + 63) / 64) as nat
    }

    /// Slot `lane` passes every test of a search whose farthest candidate has
    /// the key `worst`.
    pub open spec fn survives(
        self,
        lane: int,
        w: int,
        worst: u32,
        thr: spec_fn(u32, u32) -> u32,
    ) -> bool {
        self.alive_v(lane, w, worst, thr, self.steps_left(w))
    }
}

/// The numbers below `m` that satisfy `p`, rising.
pub open spec fn lanes_where(m: nat, p: spec_fn(int) -> bool) -> Seq<u32>
    decreases m,
{
    if m == 0 {
        Seq::empty()
    } else if p(m - 1) {
        lanes_where((m - 1) as nat, p).push((m - 1) as u32)
    } else {
        lanes_where((m - 1) as nat, p)
    }
}

/// The entries of `positions` whose distance is below `threshold`, in order.
pub open spec fn kept(positions: Seq<u32>, distances: Seq<u32>, threshold: u32) -> Seq<u32>
    decreases positions.len(),
{
    if positions.len() == 0 {
        Seq::empty()
    } else if distances[positions.last() as int] < threshold {
        kept(positions.drop_last(), distances, threshold).push(positions.last())
    } else {
        kept(positions.drop_last(), distances, threshold)
    }
}

pub proof fn lemma_lanes_where(m: nat, p: spec_fn(int) -> bool)
    requires
        m <= u32::MAX,
    ensures
        lanes_where(m, p).len() <= m,
        forall|i: int| 0 <= i < lanes_where(m, p).len() ==> #[trigger] lanes_where(m, p)[i] < m && p(
            lanes_where(m, p)[i] as int,
        ),
        forall|i: int, j: int|
            0 <= i < j < lanes_where(m, p).len() ==> #[trigger] lanes_where(m, p)[i]
                < #[trigger] lanes_where(m, p)[j],
        forall|l: int| 0 <= l < m && #[trigger] p(l) ==> lanes_where(m, p).contains(l as u32),
    decreases m,
{
    if m > 0 {
        let prior = lanes_where((m - 1) as nat, p);
        lemma_lanes_where((m - 1) as nat, p);
        let s = lanes_where(m, p);
        assert forall|l: int| 0 <= l < m && #[trigger] p(l) implies s.contains(l as u32) by {
            if l < m - 1 {
                assert(prior.contains(l as u32));
                let i = choose|i: int| 0 <= i < prior.len() && prior[i] == l as u32;
                assert(s[i] == l as u32);
            } else {
                assert(s[s.len() - 1] == l as u32);
            }
        }
    }
}

pub proof fn lemma_lanes_where_congruent(
    m: nat,
    p: spec_fn(int) -> bool,
    q: spec_fn(int) -> bool,
)
    requires
        forall|l: int| 0 <= l < m ==> #[trigger] p(l) == q(l),
    ensures
        lanes_where(m, p) == lanes_where(m, q),
    decreases m,
{
    if m > 0 {
        lemma_lanes_where_congruent((m - 1) as nat, p, q);
        assert(p(m - 1) == q(m - 1));
    }
}

pub proof fn lemma_lanes_where_empty(
    m: nat,
    p: spec_fn(int) -> bool,
    q: spec_fn(int) -> bool,
)
    requires
        m <= u32::MAX,
        lanes_where(m, p).len() == 0,
        forall|l: int| 0 <= l < m && #[trigger] q(l) ==> p(l),
    ensures
        lanes_where(m, q).len() == 0,
{
    lemma_lanes_where(m, p);
    lemma_lanes_where(m, q);
    if lanes_where(m, q).len() > 0 {
        let l = lanes_where(m, q)[0];
        assert(q(l as int));
        assert(lanes_where(m, p).contains(l));
    }
}

/// Testing the distances of a list narrows the condition it was made by.
pub proof fn lemma_kept_narrows(
    m: nat,
    p: spec_fn(int) -> bool,
    q: spec_fn(int) -> bool,
    distances: Seq<u32>,
    threshold: u32,
)
    requires
        m <= u32::MAX,
        forall|l: int|
            0 <= l < m && #[trigger] p(l) ==> (distances[l] < threshold <==> q(l)),
    ensures
        kept(lanes_where(m, p), distances, threshold) == lanes_where(m, |l: int| p(l) && q(l)),
    decreases m,
{
    let r = |l: int| p(l) && q(l);
    if m > 0 {
        lemma_kept_narrows((m - 1) as nat, p, q, distances, threshold);
        let s = lanes_where(m, p);
        if p(m - 1) {
            assert(s.drop_last() =~= lanes_where((m - 1) as nat, p));
            assert(s.last() == m - 1);
        }
        assert(r(m - 1) == (p(m - 1) && q(m - 1)));
    }
}

/// A step that passes more tests passes all the earlier ones.
pub proof fn lemma_alive_h_antitone(
    s: Scan,
    lane: int,
    w: int,
    worst: u32,
    thr: spec_fn(u32, u32) -> u32,
    a: nat,
    b: nat,
)
    requires
        a <= b,
        s.alive_h(lane, w, worst, thr, b),
    ensures
        s.alive_h(lane, w, worst, thr, a),
    decreases b,
{
    if a < b {
        lemma_alive_h_antitone(s, lane, w, worst, thr, a, (b - 1) as nat);
    }
}

pub proof fn lemma_alive_v_antitone(
    s: Scan,
    lane: int,
    w: int,
    worst: u32,
    thr: spec_fn(u32, u32) -> u32,
    a: nat,
    b: nat,
)
    requires
        a <= b,
        s.alive_v(lane, w, worst, thr, b),
    ensures
        s.alive_v(lane, w, worst, thr, a),
    decreases b,
{
    if a < b {
        lemma_alive_v_antitone(s, lane, w, worst, thr, a, (b - 1) as nat);
    }
}

/// All dimensions visited is the full distance.
pub proof fn lemma_visited_all(s: Scan, lane: int)
    requires
        s.wf(),
    ensures
        s.visited(lane, vertical_count(s.dims), horizontal_count(s.dims) as int) == s.distance(
            lane,
        ),
{
    lemma_split_bounds(s.dims);
    lemma_dist_range_split(
        s.query,
        s.codes(lane),
        0,
        vertical_count(s.dims),
        s.dims as int,
    );
}

/// Sets the first `n` distances to zero.
pub fn reset_pruning_distances(slice: &mut [DistanceU32], n: usize)
    requires
        n <= old(slice)@.len(),
    ensures
        final(slice)@.len() == old(slice)@.len(),
        forall|i: int|
            0 <= i < old(slice)@.len() ==> #[trigger] final(slice)@[i] == if i < n {
                0
            } else {
                old(slice)@[i]
            },
{
    let ghost before = slice@;
    for i in 0..n
        invariant
            n <= before.len(),
            slice@.len() == before.len(),
            forall|j: int|
                0 <= j < before.len() ==> #[trigger] slice@[j] == if j < i {
                    0
                } else {
                    before[j]
                },
    {
        slice[i] = 0;
    }
}

/// How many of the first `n` entries are at least `threshold`.
pub open spec fn count_at_least(distances: Seq<u32>, n: nat, threshold: u32) -> nat
    decreases n,
{
    if n == 0 {
        0
    } else {
        count_at_least(distances, (n - 1) as nat, threshold) + if distances[n - 1] >= threshold {
            1nat
        } else {
            0
        }
    }
}

/// Counts the slots that a threshold would prune.
pub fn evaluate_pruning_predicate_scalar(
    n_vectors: usize,
    pruning_distances: &[DistanceU32],
    pruning_threshold: DistanceU32,
) -> (n_pruned: u32)
    requires
        n_vectors <= pruning_distances@.len(),
        n_vectors <= u32::MAX,
    ensures
        n_pruned == count_at_least(pruning_distances@, n_vectors as nat, pruning_threshold),
{
    let mut n_pruned: u32 = 0;
    for i in 0..n_vectors
        invariant
            n_vectors <= pruning_distances@.len(),
            n_vectors <= u32::MAX,
            n_pruned == count_at_least(pruning_distances@, i as nat, pruning_threshold),
            n_pruned <= i,
    {
        if pruning_distances[i] >= pruning_threshold {
            n_pruned += 1;
        }
    }
    n_pruned
}

/// Lists the slots whose distance is below the threshold; returns how many
/// there are.
pub fn init_positions_array(
    n_vectors: usize,
    pruning_positions: &mut [u32],
    pruning_threshold: DistanceU32,
    pruning_distances: &[DistanceU32],
) -> (r: usize)
    requires
        n_vectors <= pruning_distances@.len(),
        n_vectors <= old(pruning_positions)@.len(),
        n_vectors <= u32::MAX,
    ensures
        r <= n_vectors,
        final(pruning_positions)@.len() == old(pruning_positions)@.len(),
        final(pruning_positions)@.take(r as int) == lanes_where(
            n_vectors as nat,
            |l: int| pruning_distances@[l] < pruning_threshold,
        ),
        forall|i: int|
            n_vectors <= i < old(pruning_positions)@.len() ==> #[trigger] final(pruning_positions)@[i] == old(pruning_positions)@[i],
{
    let ghost before = pruning_positions@;
    let ghost below = |l: int| pruning_distances@[l] < pruning_threshold;
    let mut r: usize = 0;
    proof {
        assert(pruning_positions@.take(0) =~= lanes_where(0, below));
    }
    for vector_idx in 0..n_vectors
        invariant
            n_vectors <= pruning_distances@.len(),
            n_vectors <= before.len(),
            n_vectors <= u32::MAX,
            r <= vector_idx,
            below == (|l: int| pruning_distances@[l] < pruning_threshold),
            pruning_positions@.len() == before.len(),
            pruning_positions@.take(r as int) == lanes_where(vector_idx as nat, below),
            forall|i: int|
                n_vectors <= i < before.len() ==> #[trigger] pruning_positions@[i] == before[i],
    {
        let ghost prev = pruning_positions@;
        pruning_positions[r] = vector_idx as u32;
        proof {
            assert(pruning_positions@.take(r as int) =~= prev.take(r as int));
            assert(pruning_positions@.take(r + 1) =~= prev.take(r as int).push(vector_idx as u32));
        }
        if pruning_distances[vector_idx] < pruning_threshold {
            r += 1;
        }
    }
    r
}

/// Keeps the listed slots whose distance is below the threshold; returns how
/// many are left.
pub fn evaluate_pruning_predicate_positions(
    n_vectors: usize,
    pruning_positions: &mut [u32],
    pruning_threshold: DistanceU32,
    pruning_distances: &[DistanceU32],
) -> (r: usize)
    requires
        n_vectors <= old(pruning_positions)@.len(),
        forall|i: int|
            0 <= i < n_vectors ==> #[trigger] old(pruning_positions)@[i] < pruning_distances@.len(),
    ensures
        r <= n_vectors,
        final(pruning_positions)@.len() == old(pruning_positions)@.len(),
        final(pruning_positions)@.take(r as int) == kept(
            old(pruning_positions)@.take(n_vectors as int),
            pruning_distances@,
            pruning_threshold,
        ),
        forall|i: int|
            n_vectors <= i < old(pruning_positions)@.len() ==> #[trigger] final(pruning_positions)@[i] == old(pruning_positions)@[i],
{
    let ghost before = pruning_positions@;
    let mut r: usize = 0;
    proof {
        assert(before.take(0) =~= Seq::<u32>::empty());
        assert(pruning_positions@.take(0) =~= kept(
            before.take(0),
            pruning_distances@,
            pruning_threshold,
        ));
    }
    for vector_idx in 0..n_vectors
        invariant
            n_vectors <= before.len(),
            forall|i: int|
                0 <= i < n_vectors ==> #[trigger] before[i] < pruning_distances@.len(),
            r <= vector_idx,
            pruning_positions@.len() == before.len(),
            pruning_positions@.take(r as int) == kept(
                before.take(vector_idx as int),
                pruning_distances@,
                pruning_threshold,
            ),
            forall|i: int|
                vector_idx <= i < before.len() ==> #[trigger] pruning_positions@[i] == before[i],
    {
        let ghost prev = pruning_positions@;
        let entry: u32 = pruning_positions[vector_idx];
        proof {
            assert(entry == before[vector_idx as int]);
            let longer = before.take(vector_idx + 1);
            assert(longer.drop_last() =~= before.take(vector_idx as int));
            assert(longer.last() == entry);
        }
        pruning_positions[r] = entry;
        proof {
            assert(pruning_positions@.take(r as int) =~= prev.take(r as int));
            assert(pruning_positions@.take(r + 1) =~= prev.take(r as int).push(entry));
        }
        if pruning_distances[entry as usize] < pruning_threshold {
            r += 1;
        }
    }
    r
}

/// The distances that a scan has accumulated over the first `w` vertical and
/// `h` horizontal dimensions for the slots that satisfy `p`.
pub open spec fn holds_visited(
    s: Scan,
    distances: Seq<u32>,
    w: int,
    h: int,
    p: spec_fn(int) -> bool,
) -> bool {
    forall|l: int| 0 <= l < s.lanes && #[trigger] p(l) ==> distances[l] == s.visited(l, w, h)
}

pub proof fn lemma_count_is_prunable(s: Scan, distances: Seq<u32>, m: nat, w: int, threshold: u32)
    requires
        m <= s.lanes,
        forall|l: int| 0 <= l < s.lanes ==> #[trigger] distances[l] == s.visited(l, w, 0),
    ensures
        count_at_least(distances, m, threshold) == s.prunable(m, w, threshold),
    decreases m,
{
    if m > 0 {
        lemma_count_is_prunable(s, distances, (m - 1) as nat, w, threshold);
    }
}

/// First pass over a cluster: accumulates vertical dimensions for every slot
/// until enough slots could be pruned. Returns the dimensions visited.
pub fn warmup<G: Fn(u32, u32) -> u32>(
    query: &[u8],
    data: &[u8],
    n_vectors: usize,
    stride: usize,
    num_dimensions: u32,
    vertical: usize,
    tuples_needed_exit: usize,
    worst: u32,
    threshold_of: &G,
    pruning_distances: &mut [DistanceU32],
) -> (w: usize)
    requires
        (Scan {
            query: query@,
            data: data@,
            stride: stride as int,
            dims: num_dimensions as nat,
            lanes: n_vectors as nat,
        }).wf(),
        vertical == vertical_count(num_dimensions as nat),
        n_vectors <= old(pruning_distances)@.len(),
        is_function_up_to(*threshold_of, num_dimensions as int),
        tuples_needed_exit > 0,
    ensures
        ({
            let s = Scan {
                query: query@,
                data: data@,
                stride: stride as int,
                dims: num_dimensions as nat,
                lanes: n_vectors as nat,
            };
            &&& w == s.warm_from(
                0,
                0,
                tuples_needed_exit as nat,
                worst,
                |x: u32, y: u32| value_of2(*threshold_of, x, y),
            )
            &&& holds_visited(s, final(pruning_distances)@, w as int, 0, |l: int| true)
        }),
        0 < w <= vertical,
        w % 4 == 0 || w == vertical,
        final(pruning_distances)@.len() == old(pruning_distances)@.len(),
        forall|i: int|
            n_vectors <= i < old(pruning_distances)@.len() ==> #[trigger] final(pruning_distances)@[i] == old(pruning_distances)@[i],
{
    let ghost s = Scan {
        query: query@,
        data: data@,
        stride: stride as int,
        dims: num_dimensions as nat,
        lanes: n_vectors as nat,
    };
    let ghost thr = |x: u32, y: u32| value_of2(*threshold_of, x, y);
    let ghost before = pruning_distances@;
    proof {
        lemma_split_bounds(s.dims);
    }
    reset_pruning_distances(pruning_distances, n_vectors);
    let mut w: usize = 0;
    let mut step: usize = 0;
    let mut to_prune: usize = 0;
    proof {
        assert forall|l: int| 0 <= l < n_vectors implies #[trigger] pruning_distances@[l]
            == s.visited(l, 0, 0) by {}
    }
    while to_prune < tuples_needed_exit && w < vertical
        invariant
            s == (Scan {
                query: query@,
                data: data@,
                stride: stride as int,
                dims: num_dimensions as nat,
                lanes: n_vectors as nat,
            }),
            s.wf(),
            thr == (|x: u32, y: u32| value_of2(*threshold_of, x, y)),
            vertical == vertical_count(num_dimensions as nat),
            0 < vertical <= num_dimensions,
            n_vectors <= before.len(),
            is_function_up_to(*threshold_of, num_dimensions as int),
            tuples_needed_exit > 0,
            w <= vertical,
            w % 4 == 0 || w == vertical,
            step <= w,
            w == 0 ==> to_prune == 0,
            to_prune < tuples_needed_exit ==> s.warm_from(
                0,
                0,
                tuples_needed_exit as nat,
                worst,
                thr,
            ) == s.warm_from(w as int, step as int, tuples_needed_exit as nat, worst, thr),
            to_prune >= tuples_needed_exit ==> s.warm_from(
                0,
                0,
                tuples_needed_exit as nat,
                worst,
                thr,
            ) == w,
            pruning_distances@.len() == before.len(),
            forall|l: int|
                0 <= l < n_vectors ==> #[trigger] pruning_distances@[l] == s.visited(
                    l,
                    w as int,
                    0,
                ),
            forall|i: int|
                n_vectors <= i < before.len() ==> #[trigger] pruning_distances@[i] == before[i],
        decreases vertical - w,
    {
        let size: usize = fetch_size_at(step);
        let next: usize = if size <= vertical - w {
            w + size
        } else {
            vertical
        };
        let ghost prev = pruning_distances@;
        proof {
            assert forall|i: int, j: int| 0 <= i < j < n_vectors implies #[trigger] lane_at(None, i)
                != #[trigger] lane_at(None, j) by {}
            assert(w % 4 == 0);
        }
        accumulate_vertical(
            query,
            data,
            None,
            n_vectors,
            stride,
            num_dimensions,
            w,
            next,
            pruning_distances,
        );
        proof {
            assert forall|l: int| 0 <= l < n_vectors implies #[trigger] pruning_distances@[l]
                == s.visited(l, next as int, 0) by {
                assert(lane_at(None, l) == l);
                assert(listed(None, n_vectors as int, l));
                assert(prev[l] == s.visited(l, w as int, 0));
                lemma_dist_range_split(s.query, s.codes(l), 0, w as int, next as int);
            }
            assert forall|i: int| n_vectors <= i < before.len() implies
                #[trigger] pruning_distances@[i] == before[i] by {
                if listed(None, n_vectors as int, i) {
                    let j = choose|j: int| 0 <= j < n_vectors && lane_at(None, j) == i;
                }
                assert(prev[i] == before[i]);
            }
        }
        let threshold: u32 = threshold_of(worst, next as u32);
        to_prune =
        evaluate_pruning_predicate_scalar(n_vectors, pruning_distances, threshold) as usize;
        proof {
            assert(threshold == thr(worst, next as u32));
            lemma_count_is_prunable(
                s,
                pruning_distances@,
                n_vectors as nat,
                next as int,
                threshold,
            );
        }
        w = next;
        step += 1;
    }
    w
}

/// A prefix that lists the slots satisfying `p` visits each of them once.
proof fn lemma_prefix_lists(positions: &[u32], n: int, m: nat, p: spec_fn(int) -> bool)
    requires
        0 <= n <= positions@.len(),
        m <= u32::MAX,
        positions@.take(n) == lanes_where(m, p),
    ensures
        lanes_distinct(Some(positions), n, m as int),
        forall|l: int| #[trigger] listed(Some(positions), n, l) <==> 0 <= l < m && p(l),
{
    let list = lanes_where(m, p);
    lemma_lanes_where(m, p);
    assert forall|i: int| 0 <= i < n implies 0 <= #[trigger] lane_at(Some(positions), i) < m by {
        assert(positions@.take(n)[i] == list[i]);
    }
    assert forall|i: int, j: int| 0 <= i < j < n implies #[trigger] lane_at(Some(positions), i)
        != #[trigger] lane_at(Some(positions), j) by {
        assert(positions@.take(n)[i] == list[i]);
        assert(positions@.take(n)[j] == list[j]);
    }
    assert forall|l: int| #[trigger] listed(Some(positions), n, l) <==> 0 <= l < m && p(l) by {
        if listed(Some(positions), n, l) {
            let i = choose|i: int| 0 <= i < n && lane_at(Some(positions), i) == l;
            assert(positions@.take(n)[i] == list[i]);
        }
        if 0 <= l < m && p(l) {
            assert(list.contains(l as u32));
            let i = choose|i: int| 0 <= i < list.len() && list[i] == l as u32;
            assert(positions@.take(n)[i] == list[i]);
            assert(lane_at(Some(positions), i) == l);
        }
    }
}

/// The tests that follow one accumulation narrow the list of survivors.
proof fn lemma_test_narrows(
    s: Scan,
    distances: Seq<u32>,
    threshold: u32,
    w: int,
    h: int,
    p: spec_fn(int) -> bool,
    q: spec_fn(int) -> bool,
)
    requires
        s.lanes <= u32::MAX,
        holds_visited(s, distances, w, h, p),
        forall|l: int|
            0 <= l < s.lanes ==> (#[trigger] q(l) <==> p(l) && s.visited(l, w, h) < threshold),
    ensures
        kept(lanes_where(s.lanes, p), distances, threshold) == lanes_where(s.lanes, q),
        holds_visited(s, distances, w, h, q),
{
    let t = |l: int| s.visited(l, w, h) < threshold;
    lemma_kept_narrows(s.lanes, p, t, distances, threshold);
    let both = |l: int| p(l) && t(l);
    assert forall|l: int| 0 <= l < s.lanes implies #[trigger] both(l) == q(l) by {}
    lemma_lanes_where_congruent(s.lanes, both, q);
    assert forall|l: int| 0 <= l < s.lanes && #[trigger] q(l) implies distances[l] == s.visited(
        l,
        w,
        h,
    ) by {
        assert(p(l));
    }
}

/// Second pass over a cluster: after a warm-up of `w` vertical dimensions,
/// visits the horizontal blocks and then the remaining vertical dimensions,
/// dropping after each step the slots that reach the threshold. Returns how
/// many slots survive; they stand first in `pruning_positions`.
pub fn prune<G: Fn(u32, u32) -> u32>(
    query: &[u8],
    data: &[u8],
    n_vectors: usize,
    stride: usize,
    num_dimensions: u32,
    vertical: usize,
    w: usize,
    worst: u32,
    threshold_of: &G,
    pruning_positions: &mut [u32],
    pruning_distances: &mut [DistanceU32],
) -> (r: usize)
    requires
        (Scan {
            query: query@,
            data: data@,
            stride: stride as int,
            dims: num_dimensions as nat,
            lanes: n_vectors as nat,
        }).wf(),
        vertical == vertical_count(num_dimensions as nat),
        w <= vertical,
        w % 4 == 0 || w == vertical,
        n_vectors <= old(pruning_positions)@.len(),
        n_vectors <= old(pruning_distances)@.len(),
        is_function_up_to(*threshold_of, num_dimensions as int),
        holds_visited(
            (Scan {
                query: query@,
                data: data@,
                stride: stride as int,
                dims: num_dimensions as nat,
                lanes: n_vectors as nat,
            }),
            old(pruning_distances)@,
            w as int,
            0,
            |l: int| true,
        ),
    ensures
        r <= n_vectors,
        final(pruning_positions)@.len() == old(pruning_positions)@.len(),
        final(pruning_distances)@.len() == old(pruning_distances)@.len(),
        ({
            let s = Scan {
                query: query@,
                data: data@,
                stride: stride as int,
                dims: num_dimensions as nat,
                lanes: n_vectors as nat,
            };
            let thr = |x: u32, y: u32| value_of2(*threshold_of, x, y);
            &&& final(pruning_positions)@.take(r as int) == lanes_where(
                n_vectors as nat,
                |l: int| s.survives(l, w as int, worst, thr),
            )
            &&& forall|l: int|
                0 <= l < n_vectors && #[trigger] s.survives(l, w as int, worst, thr) ==> final(
                    pruning_distances
                )@[l] == s.distance(l)
        }),
{
    let ghost s = Scan {
        query: query@,
        data: data@,
        stride: stride as int,
        dims: num_dimensions as nat,
        lanes: n_vectors as nat,
    };
    let ghost thr = |x: u32, y: u32| value_of2(*threshold_of, x, y);
    let ghost m = n_vectors as nat;
    let ghost v = vertical as int;
    let ghost pos_len = pruning_positions@.len();
    let ghost dist_len = pruning_distances@.len();
    proof {
        lemma_split_bounds(s.dims);
    }
    let horizontal: usize = num_dimensions as usize - vertical;
    let first: u32 = threshold_of(worst, w as u32);
    let mut cur: usize = init_positions_array(
        n_vectors,
        pruning_positions,
        first,
        pruning_distances,
    );
    let mut h: usize = 0;
    let ghost mut blocks: nat = 0;
    proof {
        assert(first == thr(worst, w as u32));
        let below = |l: int| pruning_distances@[l] < first;
        let alive = |l: int| s.alive_h(l, w as int, worst, thr, 0);
        assert forall|l: int| 0 <= l < m implies #[trigger] below(l) == alive(l) by {
            let all = |l: int| true;
            assert(all(l));
        }
        lemma_lanes_where_congruent(m, below, alive);
        assert(holds_visited(s, pruning_distances@, w as int, 0, alive)) by {
            assert forall|l: int| 0 <= l < s.lanes && #[trigger] alive(l) implies
                pruning_distances@[l] == s.visited(l, w as int, 0) by {
                let all = |l: int| true;
                assert(all(l));
            }
        }
    }
    while cur > 0 && h < horizontal
        invariant
            s == (Scan {
                query: query@,
                data: data@,
                stride: stride as int,
                dims: num_dimensions as nat,
                lanes: n_vectors as nat,
            }),
            s.wf(),
            thr == (|x: u32, y: u32| value_of2(*threshold_of, x, y)),
            m == n_vectors,
            vertical == vertical_count(num_dimensions as nat),
            horizontal == horizontal_count(num_dimensions as nat),
            0 < vertical,
            v == vertical,
            vertical + horizontal == num_dimensions,
            horizontal % 64 == 0,
            w <= vertical,
            m <= pos_len,
            m <= dist_len,
            is_function_up_to(*threshold_of, num_dimensions as int),
            pruning_positions@.len() == pos_len,
            pruning_distances@.len() == dist_len,
            h <= horizontal,
            h == 64 * blocks,
            cur <= n_vectors,
            pruning_positions@.take(cur as int) == lanes_where(
                m,
                |l: int| s.alive_h(l, w as int, worst, thr, blocks),
            ),
            holds_visited(
                s,
                pruning_distances@,
                w as int,
                h as int,
                |l: int| s.alive_h(l, w as int, worst, thr, blocks),
            ),
        decreases horizontal - h,
    {
        let ghost p = |l: int| s.alive_h(l, w as int, worst, thr, blocks);
        let ghost q = |l: int| s.alive_h(l, w as int, worst, thr, blocks + 1);
        let ghost before = pruning_distances@;
        proof {
            lemma_prefix_lists(&*pruning_positions, cur as int, m, p);
        }
        accumulate_horizontal(
            query,
            data,
            Some(&*pruning_positions),
            cur,
            stride,
            num_dimensions,
            vertical,
            h,
            pruning_distances,
        );
        proof {
            let after = pruning_distances@;
            assert forall|l: int| 0 <= l < s.lanes && #[trigger] p(l) implies after[l]
                == s.visited(l, w as int, h + 64) by {
                assert(listed(Some(&*pruning_positions), cur as int, l));
                assert(before[l] == s.visited(l, w as int, h as int));
                lemma_dist_range_split(s.query, s.codes(l), v, v + h, v + h + 64);
            }
            assert(holds_visited(s, after, w as int, h + 64, p));
        }
        h += 64;
        let threshold: u32 = threshold_of(worst, (w + h) as u32);
        proof {
            assert(threshold == thr(worst, (w + h) as u32));
            lemma_lanes_where(m, p);
            assert forall|i: int| 0 <= i < cur implies #[trigger] pruning_positions@[i]
                < pruning_distances@.len() by {
                assert(pruning_positions@.take(cur as int)[i] == lanes_where(m, p)[i]);
            }
            lemma_test_narrows(s, pruning_distances@, threshold, w as int, h as int, p, q);
        }
        cur =
        evaluate_pruning_predicate_positions(cur, pruning_positions, threshold, pruning_distances);
        proof {
            blocks = blocks + 1;
        }
    }
    let ghost all_blocks: nat = horizontal_count(s.dims) / 64;
    proof {
        let p = |l: int| s.alive_h(l, w as int, worst, thr, blocks);
        let q = |l: int| s.alive_v(l, w as int, worst, thr, 0);
        if h < horizontal {
            assert forall|l: int| 0 <= l < m && #[trigger] q(l) implies p(l) by {
                lemma_alive_h_antitone(s, l, w as int, worst, thr, blocks, all_blocks);
            }
            lemma_lanes_where_empty(m, p, q);
            lemma_lanes_where(m, q);
            assert(pruning_positions@.take(cur as int) =~= lanes_where(m, q));
            assert forall|l: int| 0 <= l < s.lanes && #[trigger] q(l) implies
                pruning_distances@[l] == s.visited(l, w as int, horizontal as int) by {
                assert(lanes_where(m, q).contains(l as u32));
            }
        } else {
            assert(blocks == all_blocks);
            assert forall|l: int| 0 <= l < m implies #[trigger] p(l) == q(l) by {}
            lemma_lanes_where_congruent(m, p, q);
            assert forall|l: int| 0 <= l < s.lanes && #[trigger] q(l) implies
                pruning_distances@[l] == s.visited(l, w as int, horizontal as int) by {
                assert(p(l));
            }
        }
    }
    let mut u: usize = w;
    let ghost mut steps: nat = 0;
    while cur > 0 && u < vertical
        invariant
            s == (Scan {
                query: query@,
                data: data@,
                stride: stride as int,
                dims: num_dimensions as nat,
                lanes: n_vectors as nat,
            }),
            s.wf(),
            thr == (|x: u32, y: u32| value_of2(*threshold_of, x, y)),
            m == n_vectors,
            vertical == vertical_count(num_dimensions as nat),
            horizontal == horizontal_count(num_dimensions as nat),
            0 < vertical,
            vertical + horizontal == num_dimensions,
            w <= vertical,
            w <= u <= vertical,
            u % 4 == 0 || u == vertical,
            u == s.vertical_after(w as int, steps),
            steps <= s.steps_left(w as int),
            steps < s.steps_left(w as int) <==> u < vertical,
            m <= pos_len,
            m <= dist_len,
            is_function_up_to(*threshold_of, num_dimensions as int),
            pruning_positions@.len() == pos_len,
            pruning_distances@.len() == dist_len,
            cur <= n_vectors,
            pruning_positions@.take(cur as int) == lanes_where(
                m,
                |l: int| s.alive_v(l, w as int, worst, thr, steps),
            ),
            holds_visited(
                s,
                pruning_distances@,
                u as int,
                horizontal as int,
                |l: int| s.alive_v(l, w as int, worst, thr, steps),
            ),
        decreases vertical - u,
    {
        let ghost p = |l: int| s.alive_v(l, w as int, worst, thr, steps);
        let ghost q = |l: int| s.alive_v(l, w as int, worst, thr, steps + 1);
        let ghost before = pruning_distances@;
        let next: usize = if 64 <= vertical - u {
            u + 64
        } else {
            vertical
        };
        proof {
            lemma_prefix_lists(&*pruning_positions, cur as int, m, p);
        }
        accumulate_vertical(
            query,
            data,
            Some(&*pruning_positions),
            cur,
            stride,
            num_dimensions,
            u,
            next,
            pruning_distances,
        );
        proof {
            let after = pruning_distances@;
            assert forall|l: int| 0 <= l < s.lanes && #[trigger] p(l) implies after[l]
                == s.visited(l, next as int, horizontal as int) by {
                assert(listed(Some(&*pruning_positions), cur as int, l));
                assert(before[l] == s.visited(l, u as int, horizontal as int));
                lemma_dist_range_split(s.query, s.codes(l), 0, u as int, next as int);
            }
            assert(holds_visited(s, after, next as int, horizontal as int, p));
            assert(next == s.vertical_after(w as int, steps + 1));
        }
        u = next;
        let threshold: u32 = threshold_of(worst, (u + horizontal) as u32);
        proof {
            assert(threshold == thr(worst, (u + horizontal) as u32));
            lemma_lanes_where(m, p);
            assert forall|i: int| 0 <= i < cur implies #[trigger] pruning_positions@[i]
                < pruning_distances@.len() by {
                assert(pruning_positions@.take(cur as int)[i] == lanes_where(m, p)[i]);
            }
            lemma_test_narrows(
                s,
                pruning_distances@,
                threshold,
                u as int,
                horizontal as int,
                p,
                q,
            );
        }
        cur =
        evaluate_pruning_predicate_positions(cur, pruning_positions, threshold, pruning_distances);
        proof {
            steps = steps + 1;
        }
    }
    proof {
        let p = |l: int| s.alive_v(l, w as int, worst, thr, steps);
        let q = |l: int| s.survives(l, w as int, worst, thr);
        assert forall|l: int| 0 <= l < m && #[trigger] q(l) implies p(l) by {
            lemma_alive_v_antitone(s, l, w as int, worst, thr, steps, s.steps_left(w as int));
        }
        if u < vertical {
            lemma_lanes_where_empty(m, p, q);
            lemma_lanes_where(m, q);
            assert(pruning_positions@.take(cur as int) =~= lanes_where(m, q));
            assert forall|l: int| 0 <= l < m && #[trigger] s.survives(
                l,
                w as int,
                worst,
                thr,
            ) implies pruning_distances@[l] == s.distance(l) by {
                assert(q(l));
                assert(lanes_where(m, q).contains(l as u32));
            }
        } else {
            assert(steps == s.steps_left(w as int));
            lemma_lanes_where_congruent(m, p, q);
            assert forall|l: int| 0 <= l < m && #[trigger] s.survives(
                l,
                w as int,
                worst,
                thr,
            ) implies pruning_distances@[l] == s.distance(l) by {
                assert(p(l));
                lemma_visited_all(s, l);
            }
        }
    }
    cur
}

/// The distance over some of the dimensions is no larger than that over all.
proof fn lemma_visited_below_distance(s: Scan, lane: int, w: int, h: int)
    requires
        s.wf(),
        0 <= w <= vertical_count(s.dims),
        0 <= h <= horizontal_count(s.dims),
    ensures
        s.visited(lane, w, h) <= s.distance(lane),
{
    lemma_split_bounds(s.dims);
    let v = vertical_count(s.dims);
    let codes = s.codes(lane);
    lemma_dist_range_split(s.query, codes, 0, w, v);
    lemma_dist_range_split(s.query, codes, v, v + h, s.dims as int);
    lemma_dist_range_split(s.query, codes, 0, v, s.dims as int);
}

proof fn lemma_warm_from_bounds(
    s: Scan,
    w: int,
    step: int,
    needed: nat,
    worst: u32,
    thr: spec_fn(u32, u32) -> u32,
)
    requires
        s.wf(),
        0 <= w,
    ensures
        0 <= s.warm_from(w, step, needed, worst, thr) <= vertical_count(s.dims),
    decreases vertical_count(s.dims) - w,
{
    lemma_split_bounds(s.dims);
    let v = vertical_count(s.dims);
    if w < v {
        let next = if w + fetch_size(step) <= v {
            w + fetch_size(step)
        } else {
            v
        };
        if s.prunable(s.lanes, next, thr(worst, next as u32)) < needed {
            lemma_warm_from_bounds(s, next, step + 1, needed, worst, thr);
        }
    }
}

proof fn lemma_alive_h_near(
    s: Scan,
    lane: int,
    w: int,
    worst: u32,
    thr: spec_fn(u32, u32) -> u32,
    blocks: nat,
)
    requires
        s.wf(),
        0 <= w <= vertical_count(s.dims),
        64 * blocks <= horizontal_count(s.dims),
        forall|v: u32| s.distance(lane) < #[trigger] thr(worst, v),
    ensures
        s.alive_h(lane, w, worst, thr, blocks),
    decreases blocks,
{
    if blocks > 0 {
        lemma_alive_h_near(s, lane, w, worst, thr, (blocks - 1) as nat);
    }
    lemma_visited_below_distance(s, lane, w, 64 * (blocks as int));
}

proof fn lemma_alive_v_near(
    s: Scan,
    lane: int,
    w: int,
    worst: u32,
    thr: spec_fn(u32, u32) -> u32,
    steps: nat,
)
    requires
        s.wf(),
        0 <= w <= vertical_count(s.dims),
        forall|v: u32| s.distance(lane) < #[trigger] thr(worst, v),
    ensures
        s.alive_v(lane, w, worst, thr, steps),
    decreases steps,
{
    let h = horizontal_count(s.dims);
    if steps == 0 {
        lemma_alive_h_near(s, lane, w, worst, thr, h / 64);
    } else {
        lemma_alive_v_near(s, lane, w, worst, thr, (steps - 1) as nat);
        lemma_visited_below_distance(s, lane, s.vertical_after(w, steps), h as int);
    }
}

/// A near slot is never pruned: one whose full distance is below the threshold
/// of every number of visited dimensions survives, however long the warm-up was.
pub proof fn law_near_slots_survive(
    s: Scan,
    lane: int,
    needed: nat,
    worst: u32,
    thr: spec_fn(u32, u32) -> u32,
)
    requires
        s.wf(),
        forall|v: u32| s.distance(lane) < #[trigger] thr(worst, v),
    ensures
        s.survives(lane, s.warm_from(0, 0, needed, worst, thr), worst, thr),
{
    lemma_warm_from_bounds(s, 0, 0, needed, worst, thr);
    let w = s.warm_from(0, 0, needed, worst, thr);
    lemma_alive_v_near(s, lane, w, worst, thr, s.steps_left(w));
}

/// A far slot never survives: the last test of a slot is on its full distance.
pub proof fn law_survivors_are_below_the_last_threshold(
    s: Scan,
    lane: int,
    w: int,
    worst: u32,
    thr: spec_fn(u32, u32) -> u32,
)
    requires
        s.wf(),
        0 <= w <= vertical_count(s.dims),
        s.survives(lane, w, worst, thr),
    ensures
        s.distance(lane) < thr(worst, s.dims as u32),
{
    lemma_split_bounds(s.dims);
    lemma_visited_all(s, lane);
    let v = vertical_count(s.dims);
    let h = horizontal_count(s.dims);
    assert(v + h == s.dims);
    let n = s.steps_left(w);
    if w < v {
        assert(n > 0);
        assert(s.vertical_after(w, n) == v);
    } else {
        assert(n == 0);
        assert(64 * ((h / 64) as int) == h);
    }
}

/// The listed numbers are those that satisfy the condition, rising.
pub proof fn law_lanes_are_places(m: nat, p: spec_fn(int) -> bool)
    ensures
        lanes_where(m, p) == places(m, p).map_values(|l: int| l as u32),
    decreases m,
{
    let f = |l: int| l as u32;
    if m > 0 {
        law_lanes_are_places((m - 1) as nat, p);
        lemma_places_step((m - 1) as nat, p);
        let before = places((m - 1) as nat, p);
        assert(before.push(m - 1).map_values(f) =~= before.map_values(f).push((m - 1) as u32));
    } else {
        lemma_places_step(0, p);
        assert(places(0, p).map_values(f) =~= Seq::<u32>::empty());
    }
}

/// Pruning a list keeps the entries whose distance is below the threshold.
pub proof fn law_kept_filters(positions: Seq<u32>, distances: Seq<u32>, threshold: u32)
    ensures
        kept(positions, distances, threshold) == positions.filter(
            |l: u32| distances[l as int] < threshold,
        ),
    decreases positions.len(),
{
    reveal(Seq::filter);
    let p = |l: u32| distances[l as int] < threshold;
    if positions.len() > 0 {
        law_kept_filters(positions.drop_last(), distances, threshold);
        assert(p(positions.last()) == (distances[positions.last() as int] < threshold));
    } else {
        assert(positions.filter(p) =~= Seq::<u32>::empty());
    }
}

/// The slots that a warm-up could prune are those whose distance over the
/// visited dimensions reaches the threshold.
pub proof fn law_prunable_counts_slots(s: Scan, m: nat, w: int, threshold: u32)
    ensures
        s.prunable(m, w, threshold) == places(m, |l: int| s.visited(l, w, 0) >= threshold).len(),
    decreases m,
{
    let p = |l: int| s.visited(l, w, 0) >= threshold;
    if m > 0 {
        law_prunable_counts_slots(s, (m - 1) as nat, w, threshold);
        lemma_places_step((m - 1) as nat, p);
    } else {
        lemma_places_step(0, p);
    }
}

/// Counting distances counts those at or above the threshold.
pub proof fn law_count_at_least_counts(distances: Seq<u32>, n: nat, threshold: u32)
    ensures
        count_at_least(distances, n, threshold) == places(
            n,
            |l: int| distances[l] >= threshold,
        ).len(),
    decreases n,
{
    let p = |l: int| distances[l] >= threshold;
    if n > 0 {
        law_count_at_least_counts(distances, (n - 1) as nat, threshold);
        lemma_places_step((n - 1) as nat, p);
    } else {
        lemma_places_step(0, p);
    }
}

/// Vertical dimensions that the first `steps` warm-up steps ask for.
pub open spec fn fetched(steps: nat) -> int {
    total(
        steps,
        |i: int|
            DIMENSIONS_FETCHING_SIZES@[if i < 19 {
                i
            } else {
                19
            }] as int,
    )
}

/// When a warm-up ends: after the first of its steps at which enough slots can
/// be pruned, or else with all vertical dimensions visited. The result is the
/// number of steps.
pub proof fn law_warmup_ends_when_enough_is_prunable(
    s: Scan,
    needed: nat,
    worst: u32,
    thr: spec_fn(u32, u32) -> u32,
) -> (steps: nat)
    requires
        s.wf(),
    ensures
        steps > 0,
        fetched((steps - 1) as nat) < vertical_count(s.dims),
        s.warm_from(0, 0, needed, worst, thr) == if fetched(steps) <= vertical_count(s.dims) {
            fetched(steps)
        } else {
            vertical_count(s.dims)
        },
        fetched(steps) < vertical_count(s.dims) ==> s.prunable(
            s.lanes,
            fetched(steps),
            thr(worst, fetched(steps) as u32),
        ) >= needed,
        forall|t: nat|
            0 < t < steps ==> s.prunable(
                s.lanes,
                #[trigger] fetched(t),
                thr(worst, fetched(t) as u32),
            ) < needed,
{
    lemma_split_bounds(s.dims);
    lemma_fetched(0);
    lemma_warm_steps(s, 0, needed, worst, thr)
}

proof fn lemma_fetched(steps: nat)
    ensures
        fetched(0) == 0,
        fetched(steps + 1) == fetched(steps) + fetch_size(steps as int),
{
    let sizes = |i: int|
        DIMENSIONS_FETCHING_SIZES@[if i < 19 {
            i
        } else {
            19
        }] as int;
    lemma_total_step(steps, sizes);
    assert(sizes(steps as int) == fetch_size(steps as int));
}

proof fn lemma_warm_steps(
    s: Scan,
    step: nat,
    needed: nat,
    worst: u32,
    thr: spec_fn(u32, u32) -> u32,
) -> (steps: nat)
    requires
        s.wf(),
        fetched(step) < vertical_count(s.dims),
    ensures
        steps > step,
        fetched((steps - 1) as nat) < vertical_count(s.dims),
        s.warm_from(fetched(step), step as int, needed, worst, thr) == if fetched(steps)
            <= vertical_count(s.dims) {
            fetched(steps)
        } else {
            vertical_count(s.dims)
        },
        fetched(steps) < vertical_count(s.dims) ==> s.prunable(
            s.lanes,
            fetched(steps),
            thr(worst, fetched(steps) as u32),
        ) >= needed,
        forall|t: nat|
            step < t < steps ==> s.prunable(
                s.lanes,
                #[trigger] fetched(t),
                thr(worst, fetched(t) as u32),
            ) < needed,
    decreases vertical_count(s.dims) - fetched(step),
{
    let v = vertical_count(s.dims);
    let w = fetched(step);
    lemma_fetched(step);
    let next = if w + fetch_size(step as int) <= v {
        w + fetch_size(step as int)
    } else {
        v
    };
    if s.prunable(s.lanes, next, thr(worst, next as u32)) >= needed || next == v {
        if next == v {
            assert(s.warm_from(v, step as int + 1, needed, worst, thr) == v);
        }
        step + 1
    } else {
        assert(next == fetched(step + 1));
        lemma_warm_steps(s, step + 1, needed, worst, thr)
    }
}

} // verus!
