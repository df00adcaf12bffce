//! One iteration of a training run: every sample goes to its nearest centroid,
//! and every centroid to the mean of its samples.
use vstd::prelude::*;
use crate::arith::{places, total};
use crate::functions::{
    is_function2, is_function_up_to, is_function_within, is_lookup_within, is_slice_function,
    is_slice_function2, lemma_value_on, value_of2, value_on,
};
use crate::kmeans::balance::{law_members_are_counted, lemma_members_bound, members};
use crate::kmeans::superkmeans::algo::{filled_with, tuned, PartialChange, SuperKMeans};
use crate::kmeans::superkmeans::batch::{
    batches, find_nearest_neighbor, find_nearest_neighbor_with_pruning, nearest_of, pruned_search,
    PdxCentroidsRef, PrunedSearch,
};
use crate::kmeans::superkmeans::common::{KnnCandidate, MAX_KEY};
use crate::kmeans::superkmeans::nearest::{law_nearest_is_least, law_pruning_finds_centroids};
use crate::kmeans::superkmeans::rows::{
    col_of, column_sum, law_sums_add_up, lemma_place, row_of,
};

verus! {

/// The distances of samples and centroids, as keys.
pub struct Distances<D, P, Q, A, H> {
    /// The distance of a sample and a centroid.
    pub between: D,
    /// The same over the leading dimensions that partial distances cover.
    pub partial: P,
    /// The distance of a sample and the centroid that it had.
    pub known: Q,
    /// A distance with that of two slices added.
    pub extend: A,
    /// The distance from which on a centroid is dropped, for the best distance
    /// so far and a number of visited dimensions.
    pub threshold: H,
}

impl<D, P, Q, A, H> Distances<D, P, Q, A, H> {
    /// The functions accept the numbers of `n` samples with those of the first
    /// `k` centroids, of which a sample may have had any of `all`, and up to `d`
    /// visited dimensions.
    pub open spec fn wf<T>(self, n: int, k: int, all: int, d: int) -> bool where
        D: Fn(usize, usize) -> u32,
        P: Fn(usize, usize) -> u32,
        Q: Fn(usize, u32) -> u32,
        A: Fn(u32, &[T], &[T]) -> u32,
        H: Fn(u32, u32) -> u32,
     {
        &&& is_function_within(self.between, n, k)
        &&& is_function_within(self.partial, n, k)
        &&& is_lookup_within(self.known, n, all)
        &&& is_slice_function2(self.extend)
        &&& is_function_up_to(self.threshold, d)
    }

    /// The pruned search of `samples` among the first `k` centroids of `run`.
    pub open spec fn search<T>(
        self,
        run: SuperKMeans<T>,
        samples: Seq<T>,
        k: nat,
    ) -> PrunedSearch<T> where
        D: Fn(usize, usize) -> u32,
        P: Fn(usize, usize) -> u32,
        Q: Fn(usize, u32) -> u32,
        A: Fn(u32, &[T], &[T]) -> u32,
        H: Fn(u32, u32) -> u32,
     {
        pruned_search(
            samples,
            run.centroids_pdx@,
            run.centroids_pdx_indices@,
            run.partial_horizontal_centroids@,
            k,
            run.d as nat,
            run.partial_d as int,
            self.partial,
            self.known,
            self.extend,
            self.threshold,
        )
    }
}

/// Coordinate `p` of the centroids: the scaled sum of the samples of its
/// cluster, or zero for a cluster without any.
pub open spec fn mean_at<T>(
    zero: T,
    plus: spec_fn(T, T) -> T,
    scale: spec_fn(T, u32) -> T,
    samples: Seq<T>,
    assignments: Seq<u32>,
    n: nat,
    d: int,
    p: int,
) -> T {
    let c = row_of(p, d);
    let size = members(assignments, n, c);
    if size == 0 {
        zero
    } else {
        scale(column_sum(plus, zero, samples, assignments, d, c, col_of(p, d), n), size as u32)
    }
}

/// A cluster without samples has an empty sum.
proof fn lemma_empty_sum<T>(
    plus: spec_fn(T, T) -> T,
    zero: T,
    samples: Seq<T>,
    assignments: Seq<u32>,
    d: int,
    c: int,
    j: int,
    n: nat,
)
    requires
        members(assignments, n, c) == 0,
    ensures
        column_sum(plus, zero, samples, assignments, d, c, j, n) == zero,
    decreases n,
{
    if n > 0 {
        lemma_empty_sum(plus, zero, samples, assignments, d, c, j, (n - 1) as nat);
    }
}

impl<T: Copy> SuperKMeans<T> {
    /// Compares every sample with every centroid and assigns it to the nearest.
    pub fn assign_in_full<D: Fn(usize, usize) -> u32>(&mut self, between: &D, n_samples: usize)
        requires
            old(self).is_started(),
            is_function_within(*between, n_samples as int, old(self).n_clusters as int),
            n_samples <= old(self).assignments@.len(),
        ensures
            final(self).is_started(),
            *final(self) == (SuperKMeans {
                assignments: final(self).assignments,
                distances: final(self).distances,
                ..*old(self)
            }),
            final(self).assignments@.len() == old(self).assignments@.len(),
            forall|i: int|
                0 <= i < n_samples ==> {
                    let r = nearest_of(
                        *between,
                        old(self).n_clusters as int,
                        i,
                        old(self).assignments@[i],
                    );
                    &&& #[trigger] final(self).assignments@[i] == r.index
                    &&& final(self).distances@[i] == r.distance
                },
            forall|i: int|
                n_samples <= i < old(self).assignments@.len()
                    ==> #[trigger] final(self).assignments@[i] == old(self).assignments@[i],
            forall|i: int|
                n_samples <= i < old(self).distances@.len()
                    ==> #[trigger] final(self).distances@[i] == MAX_KEY,
    {
        let k: usize = self.n_clusters;
        find_nearest_neighbor(between, n_samples, k, &mut self.assignments, &mut self.distances);
        proof {
            assert forall|i: int| 0 <= i < self.assignments@.len() implies
                #[trigger] self.assignments@[i] < self.n_clusters by {
                if i < n_samples {
                    law_nearest_is_least(*between, k as int, i, old(self).assignments@[i]);
                }
            }
            assert forall|i: int| 0 <= i < n_samples implies {
                let r = nearest_of(*between, k as int, i, old(self).assignments@[i]);
                &&& #[trigger] self.assignments@[i] == r.index
                &&& self.distances@[i] == r.distance
            } by {
                assert(self.distances@[i] == self.distances@[i]);
            }
        }
    }

    /// Starts from the centroid that every sample has and looks for a nearer
    /// one among the first `n_centroids`, with pruning. Gives for every sample how many centroids passed the
    /// first test.
    pub fn assign_with_pruning<D, P, Q, A, H>(
        &mut self,
        distances: &Distances<D, P, Q, A, H>,
        samples: &[T],
        n_samples: usize,
        n_centroids: usize,
    ) -> (counts: Vec<usize>) where
        D: Fn(usize, usize) -> u32,
        P: Fn(usize, usize) -> u32,
        Q: Fn(usize, u32) -> u32,
        A: Fn(u32, &[T], &[T]) -> u32,
        H: Fn(u32, u32) -> u32,

        requires
            old(self).is_started(),
            distances.wf::<T>(
                n_samples as int,
                n_centroids as int,
                old(self).n_clusters as int,
                old(self).d as int,
            ),
            n_centroids <= old(self).n_clusters,
            n_centroids == old(self).n_clusters || n_centroids % 1024 == 0,
            n_centroids + 1023 <= usize::MAX,
            n_samples <= old(self).assignments@.len(),
            samples@.len() == n_samples * old(self).d,
        ensures
            final(self).is_started(),
            *final(self) == (SuperKMeans {
                assignments: final(self).assignments,
                distances: final(self).distances,
                ..*old(self)
            }),
            final(self).assignments@.len() == old(self).assignments@.len(),
            counts@.len() == n_samples,
            forall|i: int|
                0 <= i < n_samples ==> #[trigger] distances.search(
                    *old(self),
                    samples@,
                    n_centroids as nat,
                ).point_done(
                    i,
                    old(self).assignments@,
                    old(self).distances@,
                    filled_with(0usize, n_samples as int),
                    final(self).assignments@,
                    final(self).distances@,
                    counts@,
                ),
            forall|i: int|
                n_samples <= i < old(self).assignments@.len()
                    ==> #[trigger] final(self).assignments@[i] == old(self).assignments@[i],
            forall|i: int|
                n_samples <= i < old(self).distances@.len()
                    ==> #[trigger] final(self).distances@[i] == old(self).distances@[i],
    {
        let mut counts: Vec<usize> = vec![0usize; n_samples];
        let ghost zeros = counts@;
        let ghost s = distances.search(*self, samples@, n_centroids as nat);
        let k: usize = n_centroids;
        let d: usize = self.d;
        let partial_d: u32 = self.partial_d;
        proof {
            assert(zeros =~= filled_with(0usize, n_samples as int));
            assert(1024 * batches(k as int) <= k + 1023);
        }
        match &self.pdx_index {
            Some(index) => {
                let centroids = PdxCentroidsRef {
                    index,
                    pdx_data: &self.centroids_pdx,
                    pdx_indices: &self.centroids_pdx_indices,
                    aux: &self.partial_horizontal_centroids,
                };
                find_nearest_neighbor_with_pruning(
                    samples,
                    n_samples,
                    k,
                    d,
                    &mut self.assignments,
                    &mut self.distances,
                    &centroids,
                    partial_d,
                    &mut counts,
                    &distances.partial,
                    &distances.known,
                    &distances.extend,
                    &distances.threshold,
                );
            },
            None => {},
        }
        proof {
            assert forall|i: int| 0 <= i < n_samples implies #[trigger] s.point_done(
                i,
                old(self).assignments@,
                old(self).distances@,
                zeros,
                self.assignments@,
                self.distances@,
                counts@,
            ) by {}
            assert forall|i: int| 0 <= i < self.assignments@.len() implies
                #[trigger] self.assignments@[i] < self.n_clusters by {
                if i < n_samples {
                    let known = KnnCandidate {
                        index: old(self).assignments@[i],
                        distance: old(self).distances@[i],
                    };
                    assert(s.point_done(
                        i,
                        old(self).assignments@,
                        old(self).distances@,
                        zeros,
                        self.assignments@,
                        self.distances@,
                        counts@,
                    ));
                    law_pruning_finds_centroids(s, i, known, batches(k as int), self.n_clusters as int);
                }
            }
        }
        counts
    }

    /// Moves every centroid to the mean of the samples that are assigned to it.
    fn move_to_means<F: Fn(T, T) -> T, G: Fn(T, u32) -> T>(
        &mut self,
        samples: &[T],
        n_samples: usize,
        zero: T,
        plus: &F,
        scale: &G,
    )
        requires
            old(self).is_started(),
            is_function2(*plus),
            is_function2(*scale),
            n_samples <= u32::MAX,
            n_samples <= old(self).assignments@.len(),
            n_samples * old(self).d <= samples@.len(),
            old(self).horizontal_centroids@ == filled_with(
                zero,
                old(self).n_clusters * old(self).d,
            ),
            old(self).cluster_sizes@ == Seq::new(old(self).n_clusters as nat, |c: int| 0u32),
        ensures
            final(self).is_started(),
            *final(self) == (SuperKMeans {
                horizontal_centroids: final(self).horizontal_centroids,
                cluster_sizes: final(self).cluster_sizes,
                ..*old(self)
            }),
            forall|c: int|
                0 <= c < old(self).n_clusters ==> #[trigger] final(self).cluster_sizes@[c]
                    == members(old(self).assignments@, n_samples as nat, c),
            forall|p: int|
                0 <= p < old(self).n_clusters * old(self).d ==> #[trigger] final(
                    self).horizontal_centroids@[p] == mean_at(
                    zero,
                    |a: T, b: T| value_of2(*plus, a, b),
                    |a: T, m: u32| value_of2(*scale, a, m),
                    samples@,
                    old(self).assignments@,
                    n_samples as nat,
                    old(self).d as int,
                    p,
                ),
    {
        let ghost d = self.d as int;
        let ghost k = self.n_clusters as int;
        let ghost a = self.assignments@;
        let ghost p_spec = |x: T, y: T| value_of2(*plus, x, y);
        let ghost s_spec = |x: T, m: u32| value_of2(*scale, x, m);
        self.update_centroids(samples, n_samples, plus);
        let ghost sums = self.horizontal_centroids@;
        let ghost sizes = self.cluster_sizes@;
        self.scale_centroids(scale);
        proof {
            assert forall|p: int| 0 <= p < k * d implies #[trigger] self.horizontal_centroids@[p]
                == mean_at(zero, p_spec, s_spec, samples@, a, n_samples as nat, d, p) by {
                let c = row_of(p, d);
                assert(0 <= c < k) by (nonlinear_arith)
                    requires
                        c == p / d,
                        0 <= p < k * d,
                        d > 0,
                ;
                assert(sums[p] == column_sum(
                    p_spec,
                    zero,
                    samples@,
                    a,
                    d,
                    c,
                    col_of(p, d),
                    n_samples as nat,
                ));
                assert(sizes[c] == members(a, n_samples as nat, c));
                if sizes[c] == 0 {
                    lemma_empty_sum(
                        p_spec,
                        zero,
                        samples@,
                        a,
                        d,
                        c,
                        col_of(p, d),
                        n_samples as nat,
                    );
                }
            }
        }
    }

    /// Runs an iteration up to where empty clusters are split: assigns every
    /// sample, moves the centroids to the means of their samples, and after a
    /// pruned iteration lengthens or shortens partial distances. `change` says
    /// which, from how many centroids passed the first test.
    pub fn run_iteration<D, P, Q, A, H, F, G, C>(
        &mut self,
        distances: &Distances<D, P, Q, A, H>,
        samples: &[T],
        n_samples: usize,
        iter_idx: usize,
        gemm_only: bool,
        zero: T,
        plus: &F,
        scale: &G,
        change: &C,
    ) -> (counts: Vec<usize>) where
        D: Fn(usize, usize) -> u32,
        P: Fn(usize, usize) -> u32,
        Q: Fn(usize, u32) -> u32,
        A: Fn(u32, &[T], &[T]) -> u32,
        H: Fn(u32, u32) -> u32,
        F: Fn(T, T) -> T,
        G: Fn(T, u32) -> T,
        C: Fn(&[usize]) -> PartialChange,

        requires
            old(self).is_started(),
            distances.wf::<T>(
                n_samples as int,
                old(self).n_clusters as int,
                old(self).n_clusters as int,
                old(self).d as int,
            ),
            is_function2(*plus),
            is_function2(*scale),
            is_slice_function(*change),
            old(self).n_clusters + 1023 <= usize::MAX,
            n_samples <= u32::MAX,
            n_samples <= old(self).assignments@.len(),
            samples@.len() == n_samples * old(self).d,
        ensures
            *final(self) == (SuperKMeans {
                assignments: final(self).assignments,
                distances: final(self).distances,
                horizontal_centroids: final(self).horizontal_centroids,
                prev_centroids: final(self).prev_centroids,
                cluster_sizes: final(self).cluster_sizes,
                partial_d: final(self).partial_d,
                ..*old(self)
            }),
            final(self).prev_centroids@ == if iter_idx == 0 {
                old(self).prev_centroids@
            } else {
                old(self).horizontal_centroids@
            },
            final(self).assignments@.len() == old(self).assignments@.len(),
            gemm_only ==> counts@.len() == 0 && final(self).partial_d == old(self).partial_d,
            gemm_only ==> forall|i: int|
                0 <= i < n_samples ==> {
                    let r = nearest_of(
                        distances.between,
                        old(self).n_clusters as int,
                        i,
                        old(self).assignments@[i],
                    );
                    &&& #[trigger] final(self).assignments@[i] == r.index
                    &&& final(self).distances@[i] == r.distance
                },
            !gemm_only ==> counts@.len() == n_samples && final(self).partial_d == tuned(
                old(self).partial_d,
                old(self).vertical_d,
                value_on(*change, counts@),
            ),
            !gemm_only ==> forall|i: int|
                0 <= i < n_samples ==> #[trigger] distances.search(
                    *old(self),
                    samples@,
                    old(self).n_clusters as nat,
                ).point_done(
                    i,
                    old(self).assignments@,
                    old(self).distances@,
                    filled_with(0usize, n_samples as int),
                    final(self).assignments@,
                    final(self).distances@,
                    counts@,
                ),
            forall|i: int|
                n_samples <= i < old(self).assignments@.len()
                    ==> #[trigger] final(self).assignments@[i] == old(self).assignments@[i],
            forall|i: int|
                n_samples <= i < old(self).distances@.len() ==> #[trigger] final(self).distances@[i]
                    == if gemm_only {
                    MAX_KEY
                } else {
                    old(self).distances@[i]
                },
            forall|c: int|
                0 <= c < old(self).n_clusters ==> #[trigger] final(self).cluster_sizes@[c]
                    == members(final(self).assignments@, n_samples as nat, c),
            forall|p: int|
                0 <= p < old(self).n_clusters * old(self).d ==> #[trigger] final(
                    self).horizontal_centroids@[p] == mean_at(
                    zero,
                    |a: T, b: T| value_of2(*plus, a, b),
                    |a: T, m: u32| value_of2(*scale, a, m),
                    samples@,
                    final(self).assignments@,
                    n_samples as nat,
                    old(self).d as int,
                    p,
                ),
            final(self).is_started(),
    {
        self.begin_iteration(iter_idx, zero);
        let ghost begun = *self;
        let mut counts: Vec<usize> = Vec::new();
        if gemm_only {
            self.assign_in_full(&distances.between, n_samples);
        } else {
            counts = self.assign_with_pruning(distances, samples, n_samples, self.n_clusters);
            proof {
                let s = distances.search(*old(self), samples@, old(self).n_clusters as nat);
                assert(distances.search(begun, samples@, begun.n_clusters as nat) == s);
                assert forall|i: int| 0 <= i < n_samples implies #[trigger] s.point_done(
                    i,
                    old(self).assignments@,
                    old(self).distances@,
                    filled_with(0usize, n_samples as int),
                    self.assignments@,
                    self.distances@,
                    counts@,
                ) by {
                    assert(distances.search(begun, samples@, begun.n_clusters as nat).point_done(
                        i,
                        begun.assignments@,
                        begun.distances@,
                        filled_with(0usize, n_samples as int),
                        self.assignments@,
                        self.distances@,
                        counts@,
                    ));
                }
            }
        }
        self.move_to_means(samples, n_samples, zero, plus, scale);
        if !gemm_only {
            let passed: &[usize] = counts.as_slice();
            let wanted = change(passed);
            proof {
                lemma_value_on(*change, passed, wanted);
            }
            self.tune_partial_d(wanted);
        }
        counts
    }
}

/// With exact addition and integer division, a centroid is the mean of the
/// samples that are assigned to it: every coordinate is the total of that
/// coordinate over them, divided by their number. A cluster without samples has
/// the zero.
pub proof fn law_centroids_are_means<T>(
    num: spec_fn(T) -> int,
    zero: T,
    plus: spec_fn(T, T) -> T,
    scale: spec_fn(T, u32) -> T,
    samples: Seq<T>,
    assignments: Seq<u32>,
    n: nat,
    d: int,
    c: int,
    j: int,
)
    requires
        0 <= c,
        0 <= j < d,
        n <= u32::MAX,
        num(zero) == 0,
        forall|a: T, b: T| num(#[trigger] plus(a, b)) == num(a) + num(b),
        forall|a: T, m: u32| m > 0 ==> num(#[trigger] scale(a, m)) == num(a) / (m as int),
    ensures
        places(n, |i: int| assignments[i] == c).len() > 0 ==> num(
            mean_at(zero, plus, scale, samples, assignments, n, d, c * d + j),
        ) == total(
            n,
            |i: int|
                if assignments[i] == c {
                    num(samples[i * d + j])
                } else {
                    0
                },
        ) / (places(n, |i: int| assignments[i] == c).len() as int),
        places(n, |i: int| assignments[i] == c).len() == 0 ==> mean_at(
            zero,
            plus,
            scale,
            samples,
            assignments,
            n,
            d,
            c * d + j,
        ) == zero,
{
    lemma_place(c, j, d);
    lemma_members_bound(assignments, n, c);
    law_members_are_counted(assignments, n, c);
    law_sums_add_up(num, plus, zero, samples, assignments, d, c, j, n);
    let size = members(assignments, n, c);
    if size == 0 {
        lemma_empty_sum(plus, zero, samples, assignments, d, c, j, n);
    }
}

} // verus!
