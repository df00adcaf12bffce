//! Assigning vectors to the centroids of a trained run.
use vstd::prelude::*;
use crate::fraction::ONE_BITS;
use crate::functions::is_function_within;
use crate::kmeans::superkmeans::algo::{filled_with, first_partial_d, never_prunes, SuperKMeans};
use crate::kmeans::superkmeans::assign::{
    assign_path, cluster_at, draw_bound, last_member, next_seed, path_of, AssignPath,
};
use crate::kmeans::superkmeans::batch::{find_nearest_neighbor, nearest_of, PrunedSearch};
use crate::kmeans::superkmeans::common::KnnCandidate;
use crate::kmeans::superkmeans::iteration::Distances;
use crate::kmeans::superkmeans::random::drawn;

verus! {

/// A cluster that is drawn by size is one of the clusters.
proof fn lemma_cluster_at_below(sizes: Seq<u32>, pick: u32, from: nat, before: nat)
    requires
        0 < sizes.len() <= u32::MAX,
    ensures
        cluster_at(sizes, pick, from, before) < sizes.len(),
    decreases sizes.len() - from,
{
    if from < sizes.len() && pick >= before + sizes[from as int] {
        lemma_cluster_at_below(sizes, pick, from + 1, before + sizes[from as int] as nat);
    }
}

/// A representative is one of the centroids, or the first.
proof fn lemma_last_member_below(coarse_of: Seq<u32>, m: int, n: nat)
    requires
        n <= coarse_of.len() <= u32::MAX,
    ensures
        last_member(coarse_of, m, n) == 0 || last_member(coarse_of, m, n) < coarse_of.len(),
    decreases n,
{
    if n > 0 && coarse_of[n - 1] != m {
        lemma_last_member_below(coarse_of, m, (n - 1) as nat);
    }
}

impl<T> SuperKMeans<T> {
    /// First assignments name clusters that there are.
    proof fn lemma_starts_in_range(
        self,
        path: AssignPath,
        coarse_of: Seq<u32>,
        n_coarse: int,
        vector_coarse: Seq<u32>,
        start: Seq<u32>,
    )
        requires
            self.is_started(),
            path != AssignPath::BruteForce,
            self.can_start(path, coarse_of, n_coarse, vector_coarse),
            path == AssignPath::Coarse ==> coarse_of.len() <= self.n_clusters,
            self.starts_with(path, coarse_of, vector_coarse, start),
        ensures
            forall|v: int| 0 <= v < start.len() ==> #[trigger] start[v] < self.n_clusters,
    {
        let order = self.sampled_indices@;
        assert(self.assignments@.len() == self.assignments.len());
        assert forall|v: int| 0 <= v < start.len() implies #[trigger] start[v]
            < self.n_clusters by {
            if path == AssignPath::Trained {
                assert(self.assignments@[v] < self.n_clusters);
            } else {
                assert(order.contains(v as usize));
                let i = choose|i: int| 0 <= i < order.len() && order[i] == v as usize;
                assert(order[i] == v);
                if i < self.n_samples {
                    assert(self.assignments@[i] < self.n_clusters);
                } else if path == AssignPath::Drawn {
                    lemma_cluster_at_below(
                        self.cluster_sizes@,
                        drawn(
                            next_seed(self.config.seed),
                            draw_bound(self.cluster_sizes@),
                            (i - self.n_samples) as nat,
                        ),
                        0,
                        0,
                    );
                } else {
                    lemma_last_member_below(
                        coarse_of,
                        vector_coarse[order[i] as int] as int,
                        coarse_of.len(),
                    );
                }
            }
        }
    }
}

/// What the search finds for the first `n` vectors, started from `start`.
pub open spec fn all_found<T>(
    s: PrunedSearch<T>,
    n: int,
    start: Seq<u32>,
    before: Seq<u32>,
    found: Seq<u32>,
    after: Seq<u32>,
) -> bool {
    forall|i: int|
        0 <= i < n ==> {
            let r = s.found(i, KnnCandidate { index: start[i], distance: before[i] });
            &&& #[trigger] found[i] == r.index
            &&& after[i] == r.distance
        }
}

/// What every vector starts from is determined: two lists of first assignments
/// of a run are equal.
pub proof fn law_start_is_determined<T>(
    run: SuperKMeans<T>,
    path: AssignPath,
    coarse_of: Seq<u32>,
    n_coarse: int,
    vector_coarse: Seq<u32>,
    a: Seq<u32>,
    b: Seq<u32>,
)
    requires
        path != AssignPath::BruteForce,
        run.can_start(path, coarse_of, n_coarse, vector_coarse),
        run.starts_with(path, coarse_of, vector_coarse, a),
        run.starts_with(path, coarse_of, vector_coarse, b),
    ensures
        a == b,
{
    let order = run.sampled_indices@;
    assert(run.assignments@.len() == run.assignments.len());
    assert forall|v: int| 0 <= v < a.len() implies a[v] == b[v] by {
        if path != AssignPath::Trained {
            assert(order.contains(v as usize));
            let i = choose|i: int| 0 <= i < order.len() && order[i] == v as usize;
            assert(order[i] == v);
        }
    }
    assert(a =~= b);
}

impl<T: Copy> SuperKMeans<T> {
    /// Compares every vector with every centroid and gives the nearest.
    pub fn assign<D: Fn(usize, usize) -> u32>(
        &self,
        between: &D,
        n_vectors: usize,
        n_centroids: usize,
    ) -> (result: Vec<u32>)
        requires
            is_function_within(*between, n_vectors as int, n_centroids as int),
            n_centroids <= u32::MAX,
        ensures
            result@.len() == n_vectors,
            forall|i: int|
                0 <= i < n_vectors ==> #[trigger] result@[i] == nearest_of(
                    *between,
                    n_centroids as int,
                    i,
                    0,
                ).index,
    {
        let mut result: Vec<u32> = vec![0u32; n_vectors];
        let mut distances: Vec<u32> = vec![0u32; n_vectors];
        find_nearest_neighbor(between, n_vectors, n_centroids, &mut result, &mut distances);
        result
    }

    /// Assigns the vectors of a trained run: takes first assignments and looks
    /// for nearer ones among the first `n_centroids` centroids, with pruning. Where all vectors were trained on,
    /// the run keeps the new assignments; otherwise it keeps those that it had.
    pub fn assign_training_points_with_rotated_data<D, P, Q, A, H>(
        &mut self,
        path: AssignPath,
        distances: &Distances<D, P, Q, A, H>,
        rows: &[T],
        n_vectors: usize,
        n_centroids: usize,
        coarse_of: &[u32],
        n_coarse: usize,
        vector_coarse: &[u32],
    ) -> (result: Vec<u32>) where
        D: Fn(usize, usize) -> u32,
        P: Fn(usize, usize) -> u32,
        Q: Fn(usize, u32) -> u32,
        A: Fn(u32, &[T], &[T]) -> u32,
        H: Fn(u32, u32) -> u32,

        requires
            old(self).is_started(),
            distances.wf::<T>(
                n_vectors as int,
                n_centroids as int,
                old(self).n_clusters as int,
                old(self).d as int,
            ),
            n_centroids <= old(self).n_clusters,
            n_centroids == old(self).n_clusters || n_centroids % 1024 == 0,
            n_centroids + 1023 <= usize::MAX,
            rows@.len() == n_vectors * old(self).d,
            path != AssignPath::BruteForce,
            n_vectors <= old(self).assignments@.len(),
            path != AssignPath::Trained ==> n_vectors == old(self).assignments@.len(),
            old(self).can_start(path, coarse_of@, n_coarse as int, vector_coarse@),
            path == AssignPath::Coarse ==> coarse_of@.len() == n_centroids,
        ensures
            final(self).is_started(),
            *final(self) == (SuperKMeans {
                assignments: final(self).assignments,
                distances: final(self).distances,
                ..*old(self)
            }),
            result@.len() == n_vectors,
            final(self).assignments@ == if path == AssignPath::Trained {
                result@ + old(self).assignments@.skip(n_vectors as int)
            } else {
                old(self).assignments@
            },
            forall|i: int|
                n_vectors <= i < old(self).distances@.len()
                    ==> #[trigger] final(self).distances@[i] == old(self).distances@[i],
            exists|start: Seq<u32>|
                {
                    &&& #[trigger] old(self).starts_with(
                        path,
                        coarse_of@,
                        vector_coarse@,
                        start,
                    )
                    &&& all_found(
                        distances.search(*old(self), rows@, n_centroids as nat),
                        n_vectors as int,
                        start,
                        old(self).distances@,
                        result@,
                        final(self).distances@,
                    )
                },
    {
        let start = self.starting_assignments(path, coarse_of, n_coarse, vector_coarse);
        let ghost first = start@;
        proof {
            self.lemma_starts_in_range(
                path,
                coarse_of@,
                n_coarse as int,
                vector_coarse@,
                first,
            );
        }
        let trained = vstd::slice::slice_to_vec(&self.assignments);
        self.assignments = start;
        let ghost begun = *self;
        let counts = self.assign_with_pruning(distances, rows, n_vectors, n_centroids);
        let ghost searched = self.assignments@;
        let ghost s = distances.search(*old(self), rows@, n_centroids as nat);
        proof {
            assert(distances.search(begun, rows@, n_centroids as nat) == s);
            assert forall|i: int| 0 <= i < n_vectors implies {
                let r = s.found(
                    i,
                    KnnCandidate { index: first[i], distance: old(self).distances@[i] },
                );
                &&& #[trigger] searched[i] == r.index
                &&& self.distances@[i] == r.distance
            } by {
                assert(distances.search(begun, rows@, n_centroids as nat).point_done(
                    i,
                    begun.assignments@,
                    begun.distances@,
                    filled_with(0usize, n_vectors as int),
                    self.assignments@,
                    self.distances@,
                    counts@,
                ));
            }
        }
        let found = vstd::slice::slice_subrange(&self.assignments, 0, n_vectors);
        let result = vstd::slice::slice_to_vec(found);
        proof {
            assert(self.assignments@ =~= result@ + first.skip(n_vectors as int));
        }
        if path != AssignPath::Trained {
            self.assignments = trained;
        }
        proof {
            assert(old(self).starts_with(path, coarse_of@, vector_coarse@, first));
            assert forall|i: int| 0 <= i < n_vectors implies {
                let r = s.found(
                    i,
                    KnnCandidate { index: first[i], distance: old(self).distances@[i] },
                );
                &&& #[trigger] result@[i] == r.index
                &&& self.distances@[i] == r.distance
            } by {
                assert(result@[i] == searched[i]);
            }
            assert(all_found(
                s,
                n_vectors as int,
                first,
                old(self).distances@,
                result@,
                self.distances@,
            ));
        }
        result
    }

    /// Assigns the vectors of a trained run. Where pruning is not in use, every
    /// vector is compared with every one of the `n_centroids` given centroids;
    /// otherwise vectors look for a nearer one of the first `n_centroids`
    /// centroids of the run, and partial distances cover as many dimensions as at
    /// the start of a run.
    pub fn assign_training_points<E, D, P, Q, A, H>(
        &mut self,
        between: &E,
        n_centroids: usize,
        distances: &Distances<D, P, Q, A, H>,
        rows: &[T],
        n_vectors: usize,
        coarse_of: &[u32],
        n_coarse: usize,
        vector_coarse: &[u32],
    ) -> (result: Vec<u32>) where
        E: Fn(usize, usize) -> u32,
        D: Fn(usize, usize) -> u32,
        P: Fn(usize, usize) -> u32,
        Q: Fn(usize, u32) -> u32,
        A: Fn(u32, &[T], &[T]) -> u32,
        H: Fn(u32, u32) -> u32,

        requires
            old(self).trained,
            old(self).is_started(),
            old(self).config.sampling_fraction <= ONE_BITS,
            n_centroids <= u32::MAX,
            never_prunes(old(self).config, old(self).d, old(self).n_clusters)
                ==> is_function_within(*between, n_vectors as int, n_centroids as int),
            !never_prunes(old(self).config, old(self).d, old(self).n_clusters) ==> {
                let path = path_of(old(self).config, old(self).d, old(self).n_clusters);
                &&& distances.wf::<T>(
                    n_vectors as int,
                    n_centroids as int,
                    old(self).n_clusters as int,
                    old(self).d as int,
                )
                &&& n_centroids <= old(self).n_clusters
                &&& n_centroids == old(self).n_clusters || n_centroids % 1024 == 0
                &&& n_centroids + 1023 <= usize::MAX
                &&& rows@.len() == n_vectors * old(self).d
                &&& n_vectors <= old(self).assignments@.len()
                &&& path != AssignPath::Trained ==> n_vectors == old(self).assignments@.len()
                &&& old(self).can_start(path, coarse_of@, n_coarse as int, vector_coarse@)
                &&& path == AssignPath::Coarse ==> coarse_of@.len() == n_centroids
            },
        ensures
            final(self).is_started(),
            result@.len() == n_vectors,
            never_prunes(old(self).config, old(self).d, old(self).n_clusters) ==> {
                &&& *final(self) == *old(self)
                &&& forall|i: int|
                    0 <= i < n_vectors ==> #[trigger] result@[i] == nearest_of(
                        *between,
                        n_centroids as int,
                        i,
                        0,
                    ).index
            },
            !never_prunes(old(self).config, old(self).d, old(self).n_clusters) ==> {
                let path = path_of(old(self).config, old(self).d, old(self).n_clusters);
                let run = SuperKMeans {
                    partial_d: first_partial_d(old(self).vertical_d),
                    ..*old(self)
                };
                &&& *final(self) == (SuperKMeans {
                    assignments: final(self).assignments,
                    distances: final(self).distances,
                    ..run
                })
                &&& final(self).assignments@ == if path == AssignPath::Trained {
                    result@ + old(self).assignments@.skip(n_vectors as int)
                } else {
                    old(self).assignments@
                }
                &&& forall|i: int|
                    n_vectors <= i < old(self).distances@.len()
                        ==> #[trigger] final(self).distances@[i] == old(self).distances@[i]
                &&& exists|start: Seq<u32>|
                    {
                        &&& #[trigger] run.starts_with(path, coarse_of@, vector_coarse@, start)
                        &&& all_found(
                            distances.search(run, rows@, n_centroids as nat),
                            n_vectors as int,
                            start,
                            old(self).distances@,
                            result@,
                            final(self).distances@,
                        )
                    }
            },
    {
        let path = assign_path(&self.config, self.d, self.n_clusters);
        if path == AssignPath::BruteForce {
            return self.assign(between, n_vectors, n_centroids);
        }
        self.partial_d = self.initial_partial_d();
        self.assign_training_points_with_rotated_data(
            path,
            distances,
            rows,
            n_vectors,
            n_centroids,
            coarse_of,
            n_coarse,
            vector_coarse,
        )
    }
}

} // verus!
