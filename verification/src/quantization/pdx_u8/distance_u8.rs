//! Squared Euclidean distance kernels on 8-bit codes.
use vstd::prelude::*;
use crate::arith::{lemma_places_step, lemma_total_step, places, total};
use crate::quantization::pdx_u8::layout::H_DIM_SIZE;

verus! {

pub type DistanceU32 = u32;

/// Squared difference of two codes.
pub open spec fn sq_diff(a: u8, b: u8) -> nat {
    ((a - b) * (a - b)) as nat
}

/// Sum of the squared differences of `q` and `x` over the dimensions
/// `lo <= d < hi`.
pub open spec fn dist_range(q: Seq<u8>, x: Seq<u8>, lo: int, hi: int) -> nat
    decreases hi - lo,
{
    if hi <= lo {
        0
    } else {
        dist_range(q, x, lo, hi - 1) + sq_diff(q[hi - 1], x[hi - 1])
    }
}

/// A distance as 32 bits hold it: capped at the largest value.
pub open spec fn saturated(x: nat) -> nat {
    if x <= u32::MAX {
        x
    } else {
        u32::MAX as nat
    }
}

/// Position of dimension `d` of vector `lane`, where the dimensions from
/// `start` to `end` lie in groups of four (the last may be narrower).
pub open spec fn group_offset(start: int, end: int, stride: int, lane: int, d: int) -> int {
    let g = start + (d - start) / 4 * 4;
    let w = if g + 4 <= end {
        4
    } else {
        end - g
    };
    g * stride + lane * w + (d - g)
}

/// The codes of vector `lane` for the dimensions below `end`.
pub open spec fn lane_codes(data: Seq<u8>, start: int, end: int, stride: int, lane: int) -> Seq<
    u8,
> {
    Seq::new(end as nat, |d: int| data[group_offset(start, end, stride, lane, d)])
}

/// The vector that a kernel visits in its `i`-th step: the `i`-th vector, or
/// the one that the `i`-th entry of a list names.
pub open spec fn lane_at(positions: Option<&[u32]>, i: int) -> int {
    match positions {
        None => i,
        Some(p) => p@[i] as int,
    }
}

/// How often the first `n` steps visit vector `lane`.
pub open spec fn visits(positions: Option<&[u32]>, n: nat, lane: int) -> nat
    decreases n,
{
    if n == 0 {
        0
    } else {
        visits(positions, (n - 1) as nat, lane) + if lane_at(positions, n - 1) == lane {
            1nat
        } else {
            0
        }
    }
}

/// Every code that a kernel reads, and every distance that it updates, exists.
pub open spec fn kernel_in_bounds(
    query: Seq<u8>,
    data: Seq<u8>,
    distances: Seq<u32>,
    positions: Option<&[u32]>,
    n: int,
    stride: int,
    start: int,
    end: int,
) -> bool {
    start < end ==> {
        &&& positions matches Some(p) ==> n <= p@.len()
        &&& n > 0 ==> end <= query.len()
        &&& forall|i: int|
            0 <= i < n ==> 0 <= #[trigger] lane_at(positions, i) < distances.len()
        &&& forall|i: int, d: int|
            0 <= i < n && start <= d < end ==> #[trigger] group_offset(
                start,
                end,
                stride,
                lane_at(positions, i),
                d,
            ) < data.len()
    }
}

pub proof fn lemma_sq_diff_bound(a: u8, b: u8)
    ensures
        0 <= (a - b) * (a - b) <= 65025,
{
    let d = a - b;
    assert(0 <= d * d <= 65025) by (nonlinear_arith)
        requires
            -255 <= d <= 255,
    ;
}

pub proof fn lemma_dist_range_split(q: Seq<u8>, x: Seq<u8>, lo: int, mid: int, hi: int)
    requires
        lo <= mid <= hi,
    ensures
        dist_range(q, x, lo, hi) == dist_range(q, x, lo, mid) + dist_range(q, x, mid, hi),
    decreases hi - mid,
{
    if mid < hi {
        lemma_dist_range_split(q, x, lo, mid, hi - 1);
    }
}

pub proof fn lemma_dist_range_bound(q: Seq<u8>, x: Seq<u8>, lo: int, hi: int)
    requires
        lo <= hi,
    ensures
        dist_range(q, x, lo, hi) <= 65025 * (hi - lo),
    decreases hi - lo,
{
    if lo < hi {
        lemma_dist_range_bound(q, x, lo, hi - 1);
        lemma_sq_diff_bound(q[hi - 1], x[hi - 1]);
    }
}

/// A distance depends only on the codes of the dimensions it covers.
pub proof fn lemma_dist_range_congruent(
    q: Seq<u8>,
    x: Seq<u8>,
    p: Seq<u8>,
    y: Seq<u8>,
    lo: int,
    hi: int,
)
    requires
        forall|d: int| lo <= d < hi ==> #[trigger] q[d] == p[d],
        forall|d: int| lo <= d < hi ==> #[trigger] x[d] == y[d],
    ensures
        dist_range(q, x, lo, hi) == dist_range(p, y, lo, hi),
    decreases hi - lo,
{
    if lo < hi {
        lemma_dist_range_congruent(q, x, p, y, lo, hi - 1);
    }
}

/// A distance over a window of dimensions, read from the window's start.
pub proof fn lemma_dist_range_shift(
    q: Seq<u8>,
    x: Seq<u8>,
    p: Seq<u8>,
    y: Seq<u8>,
    lo: int,
    n: int,
)
    requires
        0 <= n,
        forall|d: int| 0 <= d < n ==> #[trigger] q[d] == p[lo + d],
        forall|d: int| 0 <= d < n ==> #[trigger] x[d] == y[lo + d],
    ensures
        dist_range(q, x, 0, n) == dist_range(p, y, lo, lo + n),
    decreases n,
{
    if n > 0 {
        lemma_dist_range_shift(q, x, p, y, lo, n - 1);
        assert(q[n - 1] == p[lo + (n - 1)]);
        assert(x[n - 1] == y[lo + (n - 1)]);
    }
}

/// Without a list of positions each of the first `n` vectors is visited once.
pub proof fn lemma_visits_all(n: nat, lane: int)
    ensures
        visits(None, n, lane) == if 0 <= lane < n {
            1nat
        } else {
            0
        },
    decreases n,
{
    if n > 0 {
        lemma_visits_all((n - 1) as nat, lane);
    }
}

/// A list without repetition visits each vector that it names once.
pub proof fn lemma_visits_distinct(p: &[u32], n: nat, lane: int)
    requires
        n <= p@.len(),
        forall|i: int, j: int| 0 <= i < j < n ==> p@[i] != p@[j],
    ensures
        visits(Some(p), n, lane) == if exists|i: int| 0 <= i < n && p@[i] == lane {
            1nat
        } else {
            0
        },
    decreases n,
{
    if n > 0 {
        lemma_visits_distinct(p, (n - 1) as nat, lane);
        if p@[n - 1] == lane {
            assert(0 <= n - 1 < n && p@[n - 1] == lane);
        } else {
            if exists|i: int| 0 <= i < n && p@[i] == lane {
                let i = choose|i: int| 0 <= i < n && p@[i] == lane;
                assert(0 <= i < n - 1 && p@[i] == lane);
            }
        }
    }
}

fn sq_diff_u8(a: u8, b: u8) -> (r: u32)
    ensures
        r == sq_diff(a, b),
        r <= 65025,
{
    let d: i32 = a as i32 - b as i32;
    proof {
        lemma_sq_diff_bound(a, b);
    }
    (d * d) as u32
}

/// Distance between two code slices of `num_dimensions` codes.
pub fn horizontal_chunk(query: &[u8], data: &[u8], num_dimensions: usize) -> (distance: DistanceU32)
    requires
        query@.len() == num_dimensions,
        data@.len() == num_dimensions,
        dist_range(query@, data@, 0, num_dimensions as int) <= u32::MAX,
    ensures
        distance == dist_range(query@, data@, 0, num_dimensions as int),
{
    let mut distance: u32 = 0;
    for i in 0..num_dimensions
        invariant
            query@.len() == num_dimensions,
            data@.len() == num_dimensions,
            dist_range(query@, data@, 0, num_dimensions as int) <= u32::MAX,
            distance == dist_range(query@, data@, 0, i as int),
    {
        proof {
            lemma_dist_range_split(query@, data@, 0, i + 1, num_dimensions as int);
        }
        distance += sq_diff_u8(query[i], data[i]);
    }
    distance
}

/// Adds to the distance of every vector below `n_vectors` its distance to
/// `query` over the dimensions from `start_dimension` to `end_dimension`.
pub fn vertical_full(
    query: &[u8],
    data: &[u8],
    n_vectors: usize,
    stride: usize,
    start_dimension: usize,
    end_dimension: usize,
    distances_p: &mut [DistanceU32],
)
    requires
        kernel_in_bounds(
            query@,
            data@,
            old(distances_p)@,
            None,
            n_vectors as int,
            stride as int,
            start_dimension as int,
            end_dimension as int,
        ),
    ensures
        final(distances_p)@.len() == old(distances_p)@.len(),
        forall|lane: int|
            0 <= lane < old(distances_p)@.len() ==> #[trigger] final(distances_p)@[lane] == if lane
                < n_vectors {
                saturated(
                    old(distances_p)@[lane] as nat + dist_range(
                        query@,
                        lane_codes(
                            data@,
                            start_dimension as int,
                            end_dimension as int,
                            stride as int,
                            lane,
                        ),
                        start_dimension as int,
                        end_dimension as int,
                    ),
                )
            } else {
                old(distances_p)@[lane] as nat
            },
{
    vertical_inner(
        query,
        data,
        n_vectors,
        stride,
        start_dimension,
        end_dimension,
        distances_p,
        None,
    );
    proof {
        assert forall|lane: int| 0 <= lane < distances_p@.len() implies #[trigger] distances_p@[lane]
            == if lane < n_vectors {
            saturated(
                old(distances_p)@[lane] as nat + dist_range(
                    query@,
                    lane_codes(
                        data@,
                        start_dimension as int,
                        end_dimension as int,
                        stride as int,
                        lane,
                    ),
                    start_dimension as int,
                    end_dimension as int,
                ),
            )
        } else {
            old(distances_p)@[lane] as nat
        } by {
            lemma_visits_all(n_vectors as nat, lane);
            let c = visits(None, n_vectors as nat, lane);
            let t = dist_range(
                query@,
                lane_codes(
                    data@,
                    start_dimension as int,
                    end_dimension as int,
                    stride as int,
                    lane,
                ),
                start_dimension as int,
                end_dimension as int,
            );
            assert(c * t == if c == 1 { t } else { 0 }) by (nonlinear_arith)
                requires
                    c == 0 || c == 1,
            ;
        }
    }
}

/// Adds to the distance of each vector that `pruning_positions` lists among
/// its first `n_vectors_not_pruned` entries its distance to `query` over the
/// dimensions from `start_dimension` to `end_dimension`, once per entry.
pub fn vertical_pruning(
    query: &[u8],
    data: &[u8],
    n_vectors_not_pruned: usize,
    stride: usize,
    start_dimension: usize,
    end_dimension: usize,
    distances_p: &mut [DistanceU32],
    pruning_positions: &[u32],
)
    requires
        kernel_in_bounds(
            query@,
            data@,
            old(distances_p)@,
            Some(pruning_positions),
            n_vectors_not_pruned as int,
            stride as int,
            start_dimension as int,
            end_dimension as int,
        ),
    ensures
        final(distances_p)@.len() == old(distances_p)@.len(),
        forall|lane: int|
            0 <= lane < old(distances_p)@.len() ==> #[trigger] final(distances_p)@[lane]
                == saturated(
                (old(distances_p)@[lane] + visits(
                    Some(pruning_positions),
                    n_vectors_not_pruned as nat,
                    lane,
                ) * dist_range(
                    query@,
                    lane_codes(
                        data@,
                        start_dimension as int,
                        end_dimension as int,
                        stride as int,
                        lane,
                    ),
                    start_dimension as int,
                    end_dimension as int,
                )) as nat,
            ),
{
    vertical_inner(
        query,
        data,
        n_vectors_not_pruned,
        stride,
        start_dimension,
        end_dimension,
        distances_p,
        Some(pruning_positions),
    );
}

/// Distance of one vector over the group of dimensions `start..start + width`.
fn group_distance(
    query: &[u8],
    data: &[u8],
    start: usize,
    width: usize,
    offset: usize,
    Ghost(codes): Ghost<Seq<u8>>,
) -> (s: u32)
    requires
        width <= 4,
        start + width <= query@.len(),
        offset + width <= data@.len(),
        forall|d: int|
            start <= d < start + width ==> #[trigger] codes[d] == data@[offset + (d - start)],
    ensures
        s == dist_range(query@, codes, start as int, start + width),
{
    let mut s: u32 = 0;
    for r in 0..width
        invariant
            width <= 4,
            start + width <= query@.len(),
            offset + width <= data@.len(),
            forall|d: int|
                start <= d < start + width ==> #[trigger] codes[d] == data@[offset + (d - start)],
            s == dist_range(query@, codes, start as int, start + r),
            s <= 65025 * r,
    {
        proof {
            assert(query@.len() == query.len());
            assert(data@.len() == data.len());
            assert(codes[start + r] == data@[offset + r]);
        }
        s += sq_diff_u8(query[start + r], data[offset + r]);
    }
    s
}

fn vertical_inner(
    query: &[u8],
    data: &[u8],
    n_vectors: usize,
    stride: usize,
    start_dimension: usize,
    end_dimension: usize,
    distances_p: &mut [DistanceU32],
    pruning_positions: Option<&[u32]>,
)
    requires
        kernel_in_bounds(
            query@,
            data@,
            old(distances_p)@,
            pruning_positions,
            n_vectors as int,
            stride as int,
            start_dimension as int,
            end_dimension as int,
        ),
    ensures
        final(distances_p)@.len() == old(distances_p)@.len(),
        forall|lane: int|
            0 <= lane < old(distances_p)@.len() ==> #[trigger] final(distances_p)@[lane]
                == saturated(
                (old(distances_p)@[lane] + visits(pruning_positions, n_vectors as nat, lane)
                    * dist_range(
                    query@,
                    lane_codes(
                        data@,
                        start_dimension as int,
                        end_dimension as int,
                        stride as int,
                        lane,
                    ),
                    start_dimension as int,
                    end_dimension as int,
                )) as nat,
            ),
{
    let ghost start = start_dimension as int;
    let ghost end = end_dimension as int;
    let ghost first = distances_p@;
    let ghost q = query@;
    let ghost codes = |lane: int| lane_codes(data@, start, end, stride as int, lane);
    let mut group: usize = start_dimension;
    proof {
        assert forall|lane: int| 0 <= lane < first.len() implies first[lane] == saturated(
            (first[lane] + #[trigger] visits(pruning_positions, n_vectors as nat, lane)
                * dist_range(q, codes(lane), start, start)) as nat,
        ) by {
            let c = visits(pruning_positions, n_vectors as nat, lane);
            let t = dist_range(q, codes(lane), start, start);
            assert(c * t == 0) by (nonlinear_arith)
                requires
                    t == 0,
            ;
        }
    }
    while group < end_dimension
        invariant
            start == start_dimension,
            end == end_dimension,
            start_dimension <= group,
            group <= end_dimension || group == start_dimension,
            group < end ==> (group - start) % 4 == 0,
            distances_p@.len() == first.len(),
            kernel_in_bounds(
                query@,
                data@,
                first,
                pruning_positions,
                n_vectors as int,
                stride as int,
                start,
                end,
            ),
            q == query@,
            codes == (|lane: int| lane_codes(data@, start, end, stride as int, lane)),
            forall|lane: int|
                0 <= lane < first.len() ==> #[trigger] distances_p@[lane] == saturated(
                    (first[lane] + visits(pruning_positions, n_vectors as nat, lane) * dist_range(
                        q,
                        codes(lane),
                        start,
                        group as int,
                    )) as nat,
                ),
        decreases end_dimension - group,
    {
        let left: usize = end_dimension - group;
        let width: usize = if left >= 4 {
            4
        } else {
            left
        };
        let ghost before = distances_p@;
        let ghost next = group + width;
        proof {
            assert forall|lane: int| 0 <= lane < first.len() implies before[lane] == saturated(
                (before[lane] + #[trigger] visits(pruning_positions, 0, lane) * dist_range(
                    q,
                    codes(lane),
                    group as int,
                    next,
                )) as nat,
            ) by {
                let c = visits(pruning_positions, 0, lane);
                let t = dist_range(q, codes(lane), group as int, next);
                assert(c * t == 0) by (nonlinear_arith)
                    requires
                        c == 0,
                ;
            }
        }
        for i in 0..n_vectors
            invariant
                start == start_dimension,
                end == end_dimension,
                start_dimension <= group < end_dimension,
                (group - start) % 4 == 0,
                width == if end - group >= 4 {
                    4
                } else {
                    end - group
                },
                next == group + width,
                distances_p@.len() == first.len(),
                before.len() == first.len(),
                kernel_in_bounds(
                    query@,
                    data@,
                    first,
                    pruning_positions,
                    n_vectors as int,
                    stride as int,
                    start,
                    end,
                ),
                q == query@,
                codes == (|lane: int| lane_codes(data@, start, end, stride as int, lane)),
                forall|lane: int|
                    0 <= lane < first.len() ==> #[trigger] distances_p@[lane] == saturated(
                        (before[lane] + visits(pruning_positions, i as nat, lane) * dist_range(
                            q,
                            codes(lane),
                            group as int,
                            next,
                        )) as nat,
                    ),
        {
            let vector_idx: usize = match pruning_positions {
                None => i,
                Some(p) => p[i] as usize,
            };
            let ghost lane0 = vector_idx as int;
            proof {
                assert(lane0 == lane_at(pruning_positions, i as int));
                assert(data@.len() == data.len());
                assert(group_offset(start, end, stride as int, lane0, group as int) < data@.len());
                assert(group_offset(start, end, stride as int, lane0, next - 1) < data@.len());
                assert(group * stride >= 0 && vector_idx * width >= 0) by (nonlinear_arith);
                assert forall|d: int| group <= d < next implies #[trigger] codes(lane0)[d]
                    == data@[group * stride + vector_idx * width + (d - group)] by {
                    assert((d - start) / 4 * 4 == group - start);
                }
            }
            let offset: usize = group * stride + vector_idx * width;
            let s: u32 = group_distance(query, data, group, width, offset, Ghost(codes(lane0)));
            let ghost inner = distances_p@;
            distances_p[vector_idx] = distances_p[vector_idx].saturating_add(s);
            proof {
                assert forall|lane: int| 0 <= lane < first.len() implies #[trigger] distances_p@[lane]
                    == saturated(
                    (before[lane] + visits(pruning_positions, (i + 1) as nat, lane) * dist_range(
                        q,
                        codes(lane),
                        group as int,
                        next,
                    )) as nat,
                ) by {
                    let c = visits(pruning_positions, i as nat, lane);
                    let t = dist_range(q, codes(lane), group as int, next);
                    assert((c + 1) * t == c * t + t) by (nonlinear_arith);
                    assert(c * t >= 0) by (nonlinear_arith);
                    assert(inner[lane] == saturated((before[lane] + c * t) as nat));
                }
            }
        }
        proof {
            assert forall|lane: int| 0 <= lane < first.len() implies #[trigger] distances_p@[lane]
                == saturated(
                (first[lane] + visits(pruning_positions, n_vectors as nat, lane) * dist_range(
                    q,
                    codes(lane),
                    start,
                    next,
                )) as nat,
            ) by {
                let c = visits(pruning_positions, n_vectors as nat, lane);
                let t1 = dist_range(q, codes(lane), start, group as int);
                let t2 = dist_range(q, codes(lane), group as int, next);
                lemma_dist_range_split(q, codes(lane), start, group as int, next);
                assert(c * (t1 + t2) == c * t1 + c * t2) by (nonlinear_arith);
                assert(c * t1 >= 0 && c * t2 >= 0) by (nonlinear_arith);
                assert(before[lane] == saturated((first[lane] + c * t1) as nat));
            }
        }
        group += width;
    }
    proof {
        assert forall|lane: int| 0 <= lane < first.len() implies #[trigger] distances_p@[lane]
            == saturated(
            (first[lane] + visits(pruning_positions, n_vectors as nat, lane) * dist_range(
                q,
                lane_codes(data@, start, end, stride as int, lane),
                start,
                end,
            )) as nat,
        ) by {
            assert(codes(lane) == lane_codes(data@, start, end, stride as int, lane));
            if group != end {
                assert(dist_range(q, codes(lane), start, group as int) == 0);
                assert(dist_range(q, codes(lane), start, end) == 0);
            }
        }
    }
}

/// Distance over one strip of a horizontal block, at most one block wide.
pub fn horizontal_strip(
    query_tail: &[u8],
    data_strip: &[u8],
    horizontal_extent: usize,
) -> (distance: DistanceU32)
    requires
        query_tail@.len() == data_strip@.len(),
        query_tail@.len() == if horizontal_extent <= 64 {
            horizontal_extent as nat
        } else {
            64
        },
    ensures
        distance == dist_range(query_tail@, data_strip@, 0, query_tail@.len() as int),
{
    let extent: usize = if horizontal_extent <= H_DIM_SIZE as usize {
        horizontal_extent
    } else {
        H_DIM_SIZE as usize
    };
    proof {
        lemma_dist_range_bound(query_tail@, data_strip@, 0, extent as int);
    }
    horizontal_chunk(query_tail, data_strip, extent)
}

/// A distance is the total of the squared differences of the codes.
pub proof fn law_distances_are_totals(q: Seq<u8>, x: Seq<u8>, n: nat)
    ensures
        dist_range(q, x, 0, n as int) == total(n, |d: int| (q[d] - x[d]) * (q[d] - x[d])),
    decreases n,
{
    let term = |d: int| (q[d] - x[d]) * (q[d] - x[d]);
    if n > 0 {
        law_distances_are_totals(q, x, (n - 1) as nat);
        lemma_total_step((n - 1) as nat, term);
        lemma_sq_diff_bound(q[n - 1], x[n - 1]);
    } else {
        lemma_total_step(0, term);
    }
}

/// A distance is the same in both directions, and zero only between vectors of
/// the same codes.
pub proof fn law_distances_separate(q: Seq<u8>, x: Seq<u8>, n: nat)
    ensures
        dist_range(q, x, 0, n as int) == dist_range(x, q, 0, n as int),
        dist_range(q, x, 0, n as int) == 0 <==> forall|d: int|
            0 <= d < n ==> #[trigger] q[d] == x[d],
    decreases n,
{
    if n > 0 {
        law_distances_separate(q, x, (n - 1) as nat);
        let a = q[n - 1] - x[n - 1];
        assert(a * a == (-a) * (-a)) by (nonlinear_arith);
        assert(a * a == 0 <==> a == 0) by (nonlinear_arith);
        assert(a * a >= 0) by (nonlinear_arith);
    }
}

/// Visits are counted step by step.
pub proof fn law_visits_are_counted(positions: Option<&[u32]>, n: nat, lane: int)
    ensures
        visits(positions, n, lane) == places(n, |i: int| lane_at(positions, i) == lane).len(),
    decreases n,
{
    let p = |i: int| lane_at(positions, i) == lane;
    if n > 0 {
        law_visits_are_counted(positions, (n - 1) as nat, lane);
        lemma_places_step((n - 1) as nat, p);
    } else {
        lemma_places_step(0, p);
    }
}

/// Where a kernel finds dimension `d` of a vector: in the group of four that it
/// falls into from `start` on, of which every vector has its own in turn.
pub proof fn law_group_layout_runs(start: int, end: int, stride: int, lane: int, d: int)
    requires
        start <= d < end,
    ensures
        ({
            let within = (d - start) % 4;
            let first = d - within;
            let width: int = if first + 4 <= end {
                4
            } else {
                end - first
            };
            group_offset(start, end, stride, lane, d) == first * stride + lane * width + within
        }),
{
    assert(start + (d - start) / 4 * 4 == d - (d - start) % 4);
}

} // verus!
