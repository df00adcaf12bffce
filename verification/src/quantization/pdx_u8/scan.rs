//! Distance accumulation over the slots of one cluster.
use vstd::prelude::*;
use crate::quantization::pdx_u8::distance_u8::{
    dist_range, group_offset, horizontal_chunk, lane_at, lane_codes, lemma_dist_range_bound,
    lemma_dist_range_congruent, lemma_dist_range_shift, lemma_visits_distinct, saturated,
    vertical_full, vertical_pruning, visits, DistanceU32,
};
use crate::quantization::pdx_u8::layout::{
    block_start, block_width, horizontal_count, lemma_slot_offset_bound, lemma_split_bounds,
    slot_codes, slot_offset, vertical_count,
};

verus! {

/// One of the first `n` steps visits `lane`.
pub open spec fn listed(positions: Option<&[u32]>, n: int, lane: int) -> bool {
    exists|i: int| 0 <= i < n && lane_at(positions, i) == lane
}

/// The first `n` steps visit slots below `bound`, each at most once.
pub open spec fn lanes_distinct(positions: Option<&[u32]>, n: int, bound: int) -> bool {
    &&& positions matches Some(p) ==> n <= p@.len()
    &&& forall|i: int| 0 <= i < n ==> 0 <= #[trigger] lane_at(positions, i) < bound
    &&& forall|i: int, j: int|
        0 <= i < j < n ==> #[trigger] lane_at(positions, i) != #[trigger] lane_at(positions, j)
}

/// `after` is `before` with the distance over the dimensions `lo <= d < hi`
/// added for every visited slot.
pub open spec fn accumulated(
    before: Seq<u32>,
    after: Seq<u32>,
    q: Seq<u8>,
    data: Seq<u8>,
    stride: int,
    n: nat,
    positions: Option<&[u32]>,
    lanes: int,
    lo: int,
    hi: int,
) -> bool {
    &&& after.len() == before.len()
    &&& forall|l: int|
        0 <= l < before.len() ==> #[trigger] after[l] == if listed(positions, lanes, l) {
            saturated(
                before[l] as nat + dist_range(q, slot_codes(data, stride, l, n), lo, hi),
            )
        } else {
            before[l] as nat
        }
}

proof fn lemma_group_is_slot_offset(
    v: int,
    n: nat,
    stride: int,
    lane: int,
    start: int,
    end: int,
    d: int,
)
    requires
        0 < v <= n,
        0 <= start <= d < end <= v,
        start % 4 == 0,
        end % 4 == 0 || end == v,
    ensures
        group_offset(start, end, stride, lane, d) == slot_offset(v, stride, lane, d),
{
    assert(start + (d - start) / 4 * 4 == d / 4 * 4);
}

/// Adds the distance over the vertical dimensions `start..end` to every
/// visited slot.
pub fn accumulate_vertical(
    query: &[u8],
    data: &[u8],
    positions: Option<&[u32]>,
    lanes: usize,
    stride: usize,
    num_dimensions: u32,
    start: usize,
    end: usize,
    distances: &mut [DistanceU32],
)
    requires
        num_dimensions > 0,
        query@.len() == num_dimensions,
        stride * num_dimensions <= data@.len(),
        start <= end <= vertical_count(num_dimensions as nat),
        start % 4 == 0,
        end % 4 == 0 || end == vertical_count(num_dimensions as nat),
        lanes_distinct(positions, lanes as int, stride as int),
        lanes_distinct(positions, lanes as int, old(distances)@.len() as int),
    ensures
        accumulated(
            old(distances)@,
            final(distances)@,
            query@,
            data@,
            stride as int,
            num_dimensions as nat,
            positions,
            lanes as int,
            start as int,
            end as int,
        ),
{
    let ghost n = num_dimensions as nat;
    let ghost v = vertical_count(n);
    let ghost before = distances@;
    proof {
        lemma_split_bounds(n);
        assert(n * stride == stride * n) by (nonlinear_arith);
        assert forall|i: int, d: int| 0 <= i < lanes && start <= d < end implies
            #[trigger] group_offset(
            start as int,
            end as int,
            stride as int,
            lane_at(positions, i),
            d,
        ) < data@.len() by {
            let lane = lane_at(positions, i);
            lemma_group_is_slot_offset(v, n, stride as int, lane, start as int, end as int, d);
            lemma_slot_offset_bound(v, n as int, stride as int, lane, d);
        }
    }
    match positions {
        None => {
            vertical_full(query, data, lanes, stride, start, end, distances);
        },
        Some(p) => {
            vertical_pruning(query, data, lanes, stride, start, end, distances, p);
        },
    }
    proof {
        assert forall|l: int| 0 <= l < before.len() implies #[trigger] distances@[l] == if listed(
            positions,
            lanes as int,
            l,
        ) {
            saturated(
                before[l] as nat + dist_range(
                    query@,
                    slot_codes(data@, stride as int, l, n),
                    start as int,
                    end as int,
                ),
            )
        } else {
            before[l] as nat
        } by {
            let mine = lane_codes(data@, start as int, end as int, stride as int, l);
            let theirs = slot_codes(data@, stride as int, l, n);
            assert forall|d: int| start <= d < end implies #[trigger] mine[d] == theirs[d] by {
                lemma_group_is_slot_offset(v, n, stride as int, l, start as int, end as int, d);
            }
            lemma_dist_range_congruent(query@, mine, query@, theirs, start as int, end as int);
            let t = dist_range(query@, mine, start as int, end as int);
            match positions {
                None => {
                    if l < lanes {
                        assert(lane_at(positions, l) == l);
                        assert(listed(positions, lanes as int, l));
                    }
                },
                Some(p) => {
                    assert forall|i: int, j: int| 0 <= i < j < lanes implies p@[i] != p@[j] by {
                        assert(lane_at(positions, i) != lane_at(positions, j));
                    }
                    lemma_visits_distinct(p, lanes as nat, l);
                    let c = visits(Some(p), lanes as nat, l);
                    assert(c * t == if c == 1 {
                        t
                    } else {
                        0
                    }) by (nonlinear_arith)
                        requires
                            c == 0 || c == 1,
                    ;
                    if listed(positions, lanes as int, l) {
                        let i = choose|i: int| 0 <= i < lanes && lane_at(positions, i) == l;
                        assert(0 <= i < lanes && p@[i] == l);
                    } else if exists|i: int| 0 <= i < lanes && p@[i] == l {
                        let i = choose|i: int| 0 <= i < lanes && p@[i] == l;
                        assert(lane_at(positions, i) == l);
                    }
                },
            }
        }
    }
}

/// Adds the distance over the horizontal block that starts `h` dimensions
/// after the vertical ones to every visited slot.
pub fn accumulate_horizontal(
    query: &[u8],
    data: &[u8],
    positions: Option<&[u32]>,
    lanes: usize,
    stride: usize,
    num_dimensions: u32,
    vertical: usize,
    h: usize,
    distances: &mut [DistanceU32],
)
    requires
        num_dimensions > 0,
        query@.len() == num_dimensions,
        stride * num_dimensions <= data@.len(),
        vertical == vertical_count(num_dimensions as nat),
        h % 64 == 0,
        h < horizontal_count(num_dimensions as nat),
        lanes_distinct(positions, lanes as int, stride as int),
        lanes_distinct(positions, lanes as int, old(distances)@.len() as int),
    ensures
        accumulated(
            old(distances)@,
            final(distances)@,
            query@,
            data@,
            stride as int,
            num_dimensions as nat,
            positions,
            lanes as int,
            vertical + h,
            vertical + h + 64,
        ),
{
    let ghost n = num_dimensions as nat;
    let ghost v = vertical as int;
    let ghost before = distances@;
    let ghost lo = vertical + h;
    proof {
        lemma_split_bounds(n);
        assert(h + 64 <= horizontal_count(n)) by (nonlinear_arith)
            requires
                h % 64 == 0,
                horizontal_count(n) % 64 == 0,
                h < horizontal_count(n),
        ;
    }
    let start: usize = vertical + h;
    for i in 0..lanes
        invariant
            n == num_dimensions,
            v == vertical,
            v == vertical_count(n),
            0 < v <= n,
            (n - v) % 64 == 0,
            start == lo,
            lo == vertical + h,
            h % 64 == 0,
            start + 64 <= n,
            query@.len() == n,
            stride * num_dimensions <= data@.len(),
            lanes_distinct(positions, lanes as int, stride as int),
            lanes_distinct(positions, lanes as int, before.len() as int),
            accumulated(
                before,
                distances@,
                query@,
                data@,
                stride as int,
                n,
                positions,
                i as int,
                lo,
                lo + 64,
            ),
    {
        let lane: usize = match positions {
            None => i,
            Some(p) => p[i] as usize,
        };
        let ghost codes = slot_codes(data@, stride as int, lane as int, n);
        proof {
            assert(lane == lane_at(positions, i as int));
            assert(n * stride == stride * n) by (nonlinear_arith);
            assert(data@.len() == data.len());
            assert(block_start(v, start as int) == start);
            assert(block_start(v, start + 63) == start);
            assert(block_width(v, start as int) == 64);
            lemma_slot_offset_bound(v, n as int, stride as int, lane as int, start as int);
            lemma_slot_offset_bound(v, n as int, stride as int, lane as int, start + 63);
            assert(start * stride >= 0) by (nonlinear_arith);
        }
        let at: usize = start * stride + lane * 64;
        let q = &query[start..start + 64];
        let x = &data[at..at + 64];
        proof {
            lemma_dist_range_bound(q@, x@, 0, 64);
            assert forall|d: int| 0 <= d < 64 implies #[trigger] x@[d] == codes[lo + d] by {
                assert(block_start(v, lo + d) == start);
            }
            lemma_dist_range_shift(q@, x@, query@, codes, lo, 64);
        }
        let s: u32 = horizontal_chunk(q, x, 64);
        let ghost inner = distances@;
        distances[lane] = distances[lane].saturating_add(s);
        proof {
            assert forall|l: int| 0 <= l < before.len() implies #[trigger] distances@[l]
                == if listed(positions, i + 1, l) {
                saturated(
                    before[l] as nat + dist_range(
                        query@,
                        slot_codes(data@, stride as int, l, n),
                        lo,
                        lo + 64,
                    ),
                )
            } else {
                before[l] as nat
            } by {
                if l == lane {
                    assert(lane_at(positions, i as int) == l);
                    assert(listed(positions, i + 1, l));
                    if listed(positions, i as int, l) {
                        let j = choose|j: int| 0 <= j < i && lane_at(positions, j) == l;
                        assert(lane_at(positions, j) != lane_at(positions, i as int));
                    }
                    assert(inner[l] == before[l]);
                } else {
                    if listed(positions, i + 1, l) {
                        let j = choose|j: int| 0 <= j < i + 1 && lane_at(positions, j) == l;
                        assert(0 <= j < i && lane_at(positions, j) == l);
                        assert(listed(positions, i as int, l));
                    } else if listed(positions, i as int, l) {
                        let j = choose|j: int| 0 <= j < i && lane_at(positions, j) == l;
                        assert(0 <= j < i + 1 && lane_at(positions, j) == l);
                    }
                    assert(distances@[l] == inner[l]);
                }
            }
        }
    }
}

} // verus!
