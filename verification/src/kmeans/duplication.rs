//! Copies of points into further clusters that are nearly as near.
use vstd::prelude::*;
use crate::arith::{lemma_total_step, places, total};
use crate::functions::{is_function2, is_function_within, value_of2};
use crate::kmeans::balance::{law_members_are_counted, members};
use crate::kmeans::superkmeans::batch::{
    clamped, find_k_nearest_neighbors, k_nearest_of, row_holds, Neighbour,
};
use crate::kmeans::superkmeans::common::{MAX_KEY, ZERO_KEY};

verus! {

/// The further clusters of a point, from place `j` of its nearest clusters on:
/// those before the first that is out of reach, without the primary one. What
/// is in reach is told from `own`, the distance of the primary cluster.
pub open spec fn copies<T>(
    row: Seq<u32>,
    dists: Seq<T>,
    primary: u32,
    own: T,
    within: spec_fn(T, T) -> bool,
    j: nat,
) -> Seq<u32>
    decreases row.len() - j,
{
    if j >= row.len() {
        Seq::empty()
    } else if row[j as int] == primary {
        copies(row, dists, primary, own, within, j + 1)
    } else if within(own, dists[j as int]) {
        seq![row[j as int]] + copies(row, dists, primary, own, within, j + 1)
    } else {
        Seq::empty()
    }
}

/// How many nearest clusters are looked at.
pub open spec fn fan_out(max_copies: usize, n_clusters: usize) -> usize {
    if max_copies <= n_clusters {
        max_copies
    } else {
        n_clusters
    }
}

/// Lists for every point its primary cluster, followed by the clusters that it
/// is copied into. `top` holds for every point its nearest clusters, nearest
/// first, `top_dists` their distances and `primary_dists` that of its primary
/// cluster; `within` tells, for the distance of the primary cluster and that of
/// another, whether the other is in reach. Without `spread_out`, or with room
/// for one cluster only, nothing is copied.
pub fn copy_to_near_clusters<T: Copy, W: Fn(T, T) -> bool>(
    primary: &[u32],
    primary_dists: &[T],
    n_clusters: usize,
    max_copies: usize,
    spread_out: bool,
    top: &[u32],
    top_dists: &[T],
    within: &W,
) -> (result: Vec<Vec<u32>>)
    requires
        is_function2(*within),
        max_copies > 1 && spread_out ==> {
            &&& primary@.len() * fan_out(max_copies, n_clusters) <= top@.len()
            &&& top@.len() == top_dists@.len()
            &&& primary@.len() == primary_dists@.len()
        },
    ensures
        result@.len() == primary@.len(),
        max_copies <= 1 || !spread_out ==> forall|i: int|
            0 <= i < primary@.len() ==> (#[trigger] result@[i])@ == seq![primary@[i]],
        max_copies > 1 && spread_out ==> forall|i: int|
            0 <= i < primary@.len() ==> (#[trigger] result@[i])@ == seq![primary@[i]] + copies(
                top@.subrange(
                    i * fan_out(max_copies, n_clusters),
                    (i + 1) * fan_out(max_copies, n_clusters),
                ),
                top_dists@.subrange(
                    i * fan_out(max_copies, n_clusters),
                    (i + 1) * fan_out(max_copies, n_clusters),
                ),
                primary@[i],
                primary_dists@[i],
                |a: T, b: T| value_of2(*within, a, b),
                0,
            ),
{
    let mut result: Vec<Vec<u32>> = Vec::new();
    let n: usize = primary.len();
    if max_copies <= 1 || !spread_out {
        for i in 0..n
            invariant
                n == primary@.len(),
                result@.len() == i,
                forall|j: int| 0 <= j < i ==> (#[trigger] result@[j])@ == seq![primary@[j]],
        {
            let mut one: Vec<u32> = Vec::new();
            one.push(primary[i]);
            proof {
                assert(one@ =~= seq![primary@[i as int]]);
            }
            result.push(one);
        }
        return result;
    }
    let m: usize = if max_copies <= n_clusters {
        max_copies
    } else {
        n_clusters
    };
    let ghost test = |a: T, b: T| value_of2(*within, a, b);
    for i in 0..n
        invariant
            n == primary@.len(),
            n * m <= top@.len(),
            top@.len() == top_dists@.len(),
            n == primary_dists@.len(),
            is_function2(*within),
            test == (|a: T, b: T| value_of2(*within, a, b)),
            result@.len() == i,
            forall|j: int|
                0 <= j < i ==> (#[trigger] result@[j])@ == seq![primary@[j]] + copies(
                    top@.subrange(j * m, (j + 1) * m),
                    top_dists@.subrange(j * m, (j + 1) * m),
                    primary@[j],
                    primary_dists@[j],
                    test,
                    0,
                ),
    {
        let own: u32 = primary[i];
        let own_dist: T = primary_dists[i];
        let ghost row = top@.subrange(i * m, (i + 1) * m);
        let ghost dists = top_dists@.subrange(i * m, (i + 1) * m);
        let ghost goal = seq![own] + copies(row, dists, own, own_dist, test, 0);
        proof {
            assert(top@.len() == top.len());
            assert((i + 1) * m == i * m + m) by (nonlinear_arith);
            assert(0 <= i * m && (i + 1) * m <= n * m) by (nonlinear_arith)
                requires
                    0 <= i,
                    i + 1 <= n,
            ;
        }
        let mut clusters: Vec<u32> = Vec::new();
        clusters.push(own);
        let mut j: usize = 0;
        let base: usize = i * m;
        let mut open: bool = true;
        proof {
            assert(clusters@ =~= seq![own]);
        }
        while open && j < m
            invariant
                base == i * m,
                base + m <= top@.len(),
                top@.len() == top_dists@.len(),
                top@.len() <= usize::MAX,
                row == top@.subrange(base as int, base + m),
                dists == top_dists@.subrange(base as int, base + m),
                is_function2(*within),
                test == (|a: T, b: T| value_of2(*within, a, b)),
                j <= m,
                open ==> goal == clusters@ + copies(row, dists, own, own_dist, test, j as nat),
                !open ==> goal == clusters@,
            decreases m - j,
        {
            let c: u32 = top[base + j];
            let ghost before = clusters@;
            proof {
                assert(row[j as int] == c);
            }
            if c != own {
                let near: bool = within(own_dist, top_dists[base + j]);
                proof {
                    assert(near == test(own_dist, dists[j as int]));
                }
                if near {
                    clusters.push(c);
                    proof {
                        assert(before + (seq![c] + copies(row, dists, own, own_dist, test, (j + 1) as nat))
                            =~= clusters@ + copies(row, dists, own, own_dist, test, (j + 1) as nat));
                    }
                } else {
                    open = false;
                    proof {
                        assert(before + Seq::<u32>::empty() =~= before);
                    }
                }
            }
            j += 1;
        }
        proof {
            assert(clusters@ + Seq::<u32>::empty() =~= clusters@);
        }
        result.push(clusters);
    }
    result
}

/// How often the first `n` lists name cluster `c`.
pub open spec fn total_members(lists: Seq<Vec<u32>>, n: nat, c: int) -> nat
    decreases n,
{
    if n == 0 {
        0
    } else {
        total_members(lists, (n - 1) as nat, c) + members(
            lists[n - 1]@,
            lists[n - 1]@.len(),
            c,
        )
    }
}

proof fn lemma_members_monotone(s: Seq<u32>, a: nat, b: nat, c: int)
    requires
        a <= b,
    ensures
        members(s, a, c) <= members(s, b, c),
    decreases b,
{
    if a < b {
        lemma_members_monotone(s, a, (b - 1) as nat, c);
    }
}

proof fn lemma_total_members_monotone(lists: Seq<Vec<u32>>, a: nat, b: nat, c: int)
    requires
        a <= b,
    ensures
        total_members(lists, a, c) <= total_members(lists, b, c),
    decreases b,
{
    if a < b {
        lemma_total_members_monotone(lists, a, (b - 1) as nat, c);
    }
}

/// The sizes of clusters when points may be in several.
pub fn duplicated_cluster_sizes(assignments: &[Vec<u32>], n_clusters: usize) -> (sizes: Vec<u32>)
    requires
        forall|i: int, j: int|
            0 <= i < assignments@.len() && 0 <= j < assignments@[i]@.len()
                ==> #[trigger] assignments@[i]@[j] < n_clusters,
        forall|c: int|
            0 <= c < n_clusters ==> #[trigger] total_members(assignments@, assignments@.len(), c)
                <= u32::MAX,
    ensures
        sizes@.len() == n_clusters,
        forall|c: int|
            0 <= c < n_clusters ==> #[trigger] sizes@[c] == total_members(
                assignments@,
                assignments@.len(),
                c,
            ),
{
    let mut sizes: Vec<u32> = vec![0u32; n_clusters];
    for i in 0..assignments.len()
        invariant
            forall|i: int, j: int|
                0 <= i < assignments@.len() && 0 <= j < assignments@[i]@.len()
                    ==> #[trigger] assignments@[i]@[j] < n_clusters,
            forall|c: int|
                0 <= c < n_clusters ==> #[trigger] total_members(
                    assignments@,
                    assignments@.len(),
                    c,
                ) <= u32::MAX,
            sizes@.len() == n_clusters,
            forall|c: int|
                0 <= c < n_clusters ==> #[trigger] sizes@[c] == total_members(
                    assignments@,
                    i as nat,
                    c,
                ),
    {
        let list = &assignments[i];
        let ghost before = sizes@;
        for j in 0..list.len()
            invariant
                i < assignments@.len(),
                list@ == assignments@[i as int]@,
                forall|i: int, j: int|
                    0 <= i < assignments@.len() && 0 <= j < assignments@[i]@.len()
                        ==> #[trigger] assignments@[i]@[j] < n_clusters,
                forall|c: int|
                    0 <= c < n_clusters ==> #[trigger] total_members(
                        assignments@,
                        assignments@.len(),
                        c,
                    ) <= u32::MAX,
                before.len() == n_clusters,
                sizes@.len() == n_clusters,
                forall|c: int|
                    0 <= c < n_clusters ==> #[trigger] before[c] == total_members(
                        assignments@,
                        i as nat,
                        c,
                    ),
                forall|c: int|
                    0 <= c < n_clusters ==> #[trigger] sizes@[c] == before[c] + members(
                        list@,
                        j as nat,
                        c,
                    ),
        {
            let c: usize = list[j] as usize;
            proof {
                assert(assignments@[i as int]@[j as int] < n_clusters);
                let ci = c as int;
                assert(sizes@[ci] == before[ci] + members(list@, j as nat, ci));
                lemma_members_monotone(list@, (j + 1) as nat, list@.len(), ci);
                lemma_total_members_monotone(
                    assignments@,
                    (i + 1) as nat,
                    assignments@.len(),
                    ci,
                );
                assert(total_members(assignments@, (i + 1) as nat, ci) == total_members(
                    assignments@,
                    i as nat,
                    ci,
                ) + members(list@, list@.len(), ci));
                assert(total_members(assignments@, assignments@.len(), ci) <= u32::MAX);
            }
            sizes[c] = sizes[c] + 1;
        }
    }
    sizes
}

/// The primary cluster comes first, every further cluster is another one, and
/// no more clusters are added than are looked at.
pub proof fn law_copies_are_others<T>(
    row: Seq<u32>,
    dists: Seq<T>,
    primary: u32,
    own: T,
    within: spec_fn(T, T) -> bool,
    j: nat,
)
    requires
        j <= row.len(),
    ensures
        copies(row, dists, primary, own, within, j).len() <= row.len() - j,
        !copies(row, dists, primary, own, within, j).contains(primary),
        forall|t: int|
            0 <= t < copies(row, dists, primary, own, within, j).len() ==> row.contains(
                #[trigger] copies(row, dists, primary, own, within, j)[t],
            ),
    decreases row.len() - j,
{
    let all = copies(row, dists, primary, own, within, j);
    if j < row.len() {
        law_copies_are_others(row, dists, primary, own, within, j + 1);
        let rest = copies(row, dists, primary, own, within, j + 1);
        if row[j as int] != primary && within(own, dists[j as int]) {
            assert(all =~= seq![row[j as int]] + rest);
            assert forall|t: int| 0 <= t < all.len() implies row.contains(
                #[trigger] all[t],
            ) by {
                if t == 0 {
                    assert(row[j as int] == all[t]);
                } else {
                    assert(all[t] == rest[t - 1]);
                }
            }
            if all.contains(primary) {
                let t = choose|t: int| 0 <= t < all.len() && all[t] == primary;
                assert(rest[t - 1] == primary);
            }
        }
    }
}

/// Where nearer clusters are in reach whenever farther ones are, a point is
/// copied into all of its nearest clusters that are in reach of its primary
/// cluster, and into no others.
pub proof fn law_copies_are_in_reach<T>(
    row: Seq<u32>,
    dists: Seq<T>,
    primary: u32,
    own: T,
    within: spec_fn(T, T) -> bool,
    j: nat,
    c: u32,
)
    requires
        j <= row.len(),
        dists.len() == row.len(),
        forall|s: int, t: int|
            0 <= s < t < row.len() && within(own, #[trigger] dists[t]) ==> within(
                own,
                #[trigger] dists[s],
            ),
    ensures
        copies(row, dists, primary, own, within, j).contains(c) <==> c != primary && exists|t: int|
            j <= t < row.len() && #[trigger] row[t] == c && within(own, dists[t]),
    decreases row.len() - j,
{
    let all = copies(row, dists, primary, own, within, j);
    if j < row.len() {
        law_copies_are_in_reach(row, dists, primary, own, within, j + 1, c);
        let rest = copies(row, dists, primary, own, within, j + 1);
        let x = row[j as int];
        if x != primary && within(own, dists[j as int]) {
            assert(all =~= seq![x] + rest);
            if c == x {
                assert(all[0] == c);
            }
            if rest.contains(c) {
                let t = choose|t: int| 0 <= t < rest.len() && rest[t] == c;
                assert(all[t + 1] == c);
            }
            if all.contains(c) && c != x {
                let t = choose|t: int| 0 <= t < all.len() && all[t] == c;
                assert(rest[t - 1] == c);
            }
        } else if x != primary {
            assert forall|t: int| j <= t < row.len() && #[trigger] row[t] == c implies !within(
                own,
                dists[t],
            ) by {
                if within(own, dists[t]) && t > j {
                    assert(within(own, dists[j as int]));
                }
            }
        }
    }
}

/// The clusters of a row of results, nearest first.
pub open spec fn listed_clusters(list: Seq<Neighbour>, m: nat) -> Seq<u32> {
    Seq::new(
        m,
        |t: int|
            if t < list.len() {
                list[t].1
            } else {
                u32::MAX
            },
    )
}

/// The keys of a row of results.
pub open spec fn listed_keys(list: Seq<Neighbour>, m: nat) -> Seq<u32> {
    Seq::new(
        m,
        |t: int|
            if t < list.len() {
                list[t].0
            } else {
                MAX_KEY
            },
    )
}

/// A row of results lists the clusters and keys of its neighbours.
pub proof fn lemma_listed_row(
    knn: Seq<u32>,
    distances: Seq<u32>,
    at: int,
    m: nat,
    list: Seq<Neighbour>,
)
    requires
        row_holds(knn, distances, at, m as int, list),
        0 <= at,
        at + m <= knn.len(),
        at + m <= distances.len(),
    ensures
        knn.subrange(at, at + m) == listed_clusters(list, m),
        distances.subrange(at, at + m) == listed_keys(list, m),
{
    assert forall|t: int| 0 <= t < m implies #[trigger] knn.subrange(at, at + m)[t]
        == listed_clusters(list, m)[t] by {
        assert(knn[at + t] == knn.subrange(at, at + m)[t]);
    }
    assert forall|t: int| 0 <= t < m implies #[trigger] distances.subrange(at, at + m)[t]
        == listed_keys(list, m)[t] by {
        assert(distances[at + t] == distances.subrange(at, at + m)[t]);
    }
    assert(knn.subrange(at, at + m) =~= listed_clusters(list, m));
    assert(distances.subrange(at, at + m) =~= listed_keys(list, m));
}

/// Lists for every point its primary cluster, followed by those of its
/// `max_copies` nearest clusters that are in reach: `within` tells, for the key
/// of the distance of the primary cluster and that of another, whether the
/// other is. Without `spread_out`, or with room for one cluster only, nothing
/// is copied.
pub fn duplicate_assignments<F: Fn(usize, usize) -> u32, W: Fn(u32, u32) -> bool>(
    distance: &F,
    primary: &[u32],
    n_clusters: usize,
    max_copies: usize,
    spread_out: bool,
    within: &W,
) -> (result: Vec<Vec<u32>>)
    requires
        is_function2(*within),
        max_copies > 1 && spread_out ==> {
            &&& is_function_within(*distance, primary@.len() as int, n_clusters as int)
            &&& n_clusters <= u32::MAX
            &&& primary@.len() * fan_out(max_copies, n_clusters) <= usize::MAX
            &&& forall|i: int| 0 <= i < primary@.len() ==> #[trigger] primary@[i] < n_clusters
        },
    ensures
        result@.len() == primary@.len(),
        max_copies <= 1 || !spread_out ==> forall|i: int|
            0 <= i < primary@.len() ==> (#[trigger] result@[i])@ == seq![primary@[i]],
        max_copies > 1 && spread_out ==> forall|i: int|
            0 <= i < primary@.len() ==> (#[trigger] result@[i])@ == seq![primary@[i]] + ({
                let m = fan_out(max_copies, n_clusters) as nat;
                let list = k_nearest_of(*distance, n_clusters as int, i, m);
                copies(
                    listed_clusters(list, m),
                    listed_keys(list, m),
                    primary@[i],
                    clamped(value_of2(*distance, i as usize, primary@[i] as usize)),
                    |a: u32, b: u32| value_of2(*within, a, b),
                    0,
                )
            }),
{
    let mut top: Vec<u32> = Vec::new();
    let mut keys: Vec<u32> = Vec::new();
    let mut own: Vec<u32> = Vec::new();
    let n: usize = primary.len();
    let m: usize = if max_copies <= n_clusters {
        max_copies
    } else {
        n_clusters
    };
    if max_copies > 1 && spread_out {
        top = vec![0u32; n * m];
        keys = vec![0u32; n * m];
        find_k_nearest_neighbors(distance, n, n_clusters, m, &mut top, &mut keys);
        for i in 0..n
            invariant
                n == primary@.len(),
                is_function_within(*distance, n as int, n_clusters as int),
                forall|i: int| 0 <= i < primary@.len() ==> #[trigger] primary@[i] < n_clusters,
                own@.len() == i,
                forall|j: int|
                    0 <= j < i ==> #[trigger] own@[j] == clamped(
                        value_of2(*distance, j as usize, primary@[j] as usize),
                    ),
        {
            assert(primary@[i as int] < n_clusters);
            let d: u32 = distance(i, primary[i] as usize);
            own.push(
                if d < ZERO_KEY {
                    ZERO_KEY
                } else {
                    d
                },
            );
        }
    }
    let result = copy_to_near_clusters(
        primary,
        &own,
        n_clusters,
        max_copies,
        spread_out,
        &top,
        &keys,
        within,
    );
    proof {
        if max_copies > 1 && spread_out {
            assert forall|i: int| 0 <= i < n implies (#[trigger] result@[i])@ == seq![primary@[i]]
                + ({
                let mm = fan_out(max_copies, n_clusters) as nat;
                let list = k_nearest_of(*distance, n_clusters as int, i, mm);
                copies(
                    listed_clusters(list, mm),
                    listed_keys(list, mm),
                    primary@[i],
                    clamped(value_of2(*distance, i as usize, primary@[i] as usize)),
                    |a: u32, b: u32| value_of2(*within, a, b),
                    0,
                )
            }) by {
                let list = k_nearest_of(*distance, n_clusters as int, i, m as nat);
                assert(row_holds(top@, keys@, i * m, m as int, list));
                assert((i + 1) * m == i * m + m && 0 <= i * m && i * m + m <= n * m)
                    by (nonlinear_arith)
                    requires
                        0 <= i,
                        i + 1 <= n,
                        m >= 0,
                ;
                lemma_listed_row(top@, keys@, i * m, m as nat, list);
                assert(own@[i] == clamped(
                    value_of2(*distance, i as usize, primary@[i] as usize),
                ));
            }
        }
    }
    result
}

/// Which clusters a point is copied into: of its nearest clusters, those before
/// the first that is neither its own nor in reach, in their order, without its
/// own. The result is where they stop.
pub proof fn law_copies_stop_at_the_first_out_of_reach<T>(
    row: Seq<u32>,
    dists: Seq<T>,
    primary: u32,
    own: T,
    within: spec_fn(T, T) -> bool,
) -> (stop: int)
    ensures
        0 <= stop <= row.len(),
        forall|j: int|
            0 <= j < stop ==> #[trigger] row[j] == primary || within(own, dists[j]),
        stop < row.len() ==> row[stop] != primary && !within(own, dists[stop]),
        copies(row, dists, primary, own, within, 0) == row.take(stop).filter(
            |c: u32| c != primary,
        ),
{
    let stop = lemma_copies_from(row, dists, primary, own, within, 0);
    assert(row.subrange(0, stop) =~= row.take(stop));
    stop
}

proof fn lemma_copies_from<T>(
    row: Seq<u32>,
    dists: Seq<T>,
    primary: u32,
    own: T,
    within: spec_fn(T, T) -> bool,
    j: nat,
) -> (stop: int)
    requires
        j <= row.len(),
    ensures
        j <= stop <= row.len(),
        forall|i: int|
            j <= i < stop ==> #[trigger] row[i] == primary || within(own, dists[i]),
        stop < row.len() ==> row[stop] != primary && !within(own, dists[stop]),
        copies(row, dists, primary, own, within, j) == row.subrange(j as int, stop).filter(
            |c: u32| c != primary,
        ),
    decreases row.len() - j,
{
    reveal(Seq::filter);
    let p = |c: u32| c != primary;
    if j >= row.len() || (row[j as int] != primary && !within(own, dists[j as int])) {
        assert(row.subrange(j as int, j as int).filter(p) =~= Seq::<u32>::empty());
        j as int
    } else {
        let stop = lemma_copies_from(row, dists, primary, own, within, j + 1);
        let head = seq![row[j as int]];
        let tail = row.subrange(j as int + 1, stop);
        assert(row.subrange(j as int, stop) =~= head + tail);
        Seq::filter_distributes_over_add(head, tail, p);
        assert(head.drop_last() =~= Seq::<u32>::empty());
        assert(head.last() == row[j as int]);
        assert(Seq::<u32>::empty().filter(p) =~= Seq::<u32>::empty());
        if row[j as int] == primary {
            assert(!p(head.last()));
            assert(head.filter(p) =~= Seq::<u32>::empty());
            assert(Seq::<u32>::empty() + tail.filter(p) =~= tail.filter(p));
        } else {
            assert(p(head.last()));
            assert(head.filter(p) =~= head);
        }
        stop
    }
}

/// The points of a cluster are counted over all lists: every place of every list
/// that names the cluster counts once.
pub proof fn law_listed_members_are_counted(lists: Seq<Vec<u32>>, n: nat, c: int)
    ensures
        total_members(lists, n, c) == total(
            n,
            |i: int| places(lists[i]@.len(), |j: int| lists[i]@[j] == c).len() as int,
        ),
    decreases n,
{
    let term = |i: int| places(lists[i]@.len(), |j: int| lists[i]@[j] == c).len() as int;
    if n > 0 {
        law_listed_members_are_counted(lists, (n - 1) as nat, c);
        lemma_total_step((n - 1) as nat, term);
        law_members_are_counted(lists[n - 1]@, lists[n - 1]@.len(), c);
    } else {
        lemma_total_step(0, term);
    }
}

} // verus!
