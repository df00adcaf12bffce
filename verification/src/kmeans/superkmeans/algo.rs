//! The steps of a training run.
//!
//! A run samples vectors, picks first centroids among them, and then assigns
//! vectors to centroids and moves centroids to the means of their vectors, over
//! and over. Its buffers hold elements of any type; sums, scales and
//! perturbations are functions that the caller gives.
use vstd::prelude::*;
use vstd::arithmetic::power2::pow2;
use crate::fraction::{
    fraction_floor, law_share_down_is_the_floor, scaled, share_down, shift, ONE_BITS,
};
use crate::functions::{is_function, is_function2, value_of, value_of2};
use crate::kmeans::balance::{members, sum_of};
use crate::kmeans::superkmeans::common::{
    DIMENSION_THRESHOLD_FOR_PRUNING, MIN_PARTIAL_D, N_CLUSTERS_THRESHOLD_FOR_PRUNING,
    RECALL_CONVERGENCE_PATIENCE,
};
use crate::kmeans::superkmeans::layout::{
    get_dimension_split, is_blocked, law_blocks_hold_all_rows, pdxify, vertical_part, IndexPdxIvf,
};
use crate::kmeans::superkmeans::random::{
    all_below, current_num_threads, is_permutation, shuffled, shuffled_indices,
};
use crate::kmeans::superkmeans::rows::{
    add_rows_to_clusters, col_of, column_sum, copy_rows, holds_rows_of, leading_columns,
    lemma_row_end, row_of, scale_rows, split_rows,
};

verus! {

/// Settings of a run. Fractions and tolerances are bit patterns of
/// single-precision numbers.
#[derive(Debug, Clone, Copy, PartialEq, Eq, Structural)]
pub struct SuperKMeansConfig {
    pub iters: u32,
    pub sampling_fraction: u32,
    pub max_points_per_cluster: u32,
    pub n_threads: u32,
    pub seed: u64,
    pub use_blas_only: bool,
    pub tol: u32,
    pub recall_tol: u32,
    pub early_termination: bool,
    pub sample_queries: bool,
    pub objective_k: usize,
    pub ann_explore_fraction: u32,
    pub min_not_pruned_pct: u32,
    pub max_not_pruned_pct: u32,
    pub adjustment_factor_for_partial_d: u32,
    pub unrotate_centroids: bool,
    pub verbose: bool,
    pub angular: bool,
    pub suppress_warnings: bool,
    pub data_already_rotated: bool,
}

/// The default settings: ten iterations over three tenths of the vectors, at
/// most 256 per cluster.
pub open spec fn default_settings() -> SuperKMeansConfig {
    SuperKMeansConfig {
        iters: 10,
        sampling_fraction: 0x3e99_999a,
        max_points_per_cluster: 256,
        n_threads: 0,
        seed: 42,
        use_blas_only: false,
        tol: 0x38d1_b717,
        recall_tol: 0x3ba3_d70a,
        early_termination: true,
        sample_queries: false,
        objective_k: 100,
        ann_explore_fraction: 0x3c23_d70a,
        min_not_pruned_pct: 0x3cf5_c28f,
        max_not_pruned_pct: 0x3d4c_cccd,
        adjustment_factor_for_partial_d: 0x3e4c_cccd,
        unrotate_centroids: true,
        verbose: false,
        angular: false,
        suppress_warnings: false,
        data_already_rotated: false,
    }
}

impl Default for SuperKMeansConfig {
    fn default() -> (r: SuperKMeansConfig)
        ensures
            r == default_settings(),
    {
        SuperKMeansConfig {
            iters: 10,
            sampling_fraction: 0x3e99_999a,
            max_points_per_cluster: 256,
            n_threads: 0,
            seed: 42,
            use_blas_only: false,
            tol: 0x38d1_b717,
            recall_tol: 0x3ba3_d70a,
            early_termination: true,
            sample_queries: false,
            objective_k: 100,
            ann_explore_fraction: 0x3c23_d70a,
            min_not_pruned_pct: 0x3cf5_c28f,
            max_not_pruned_pct: 0x3d4c_cccd,
            adjustment_factor_for_partial_d: 0x3e4c_cccd,
            unrotate_centroids: true,
            verbose: false,
            angular: false,
            suppress_warnings: false,
            data_already_rotated: false,
        }
    }
}

/// What an iteration did, as far as it is counted.
#[derive(Debug, Clone, Copy, PartialEq, Eq, Structural)]
pub struct IterationRecord {
    pub iteration: usize,
    pub split: usize,
    pub partial_d: u32,
    pub is_gemm_only: bool,
}

/// A training run.
pub struct SuperKMeans<T> {
    pub d: usize,
    pub n_clusters: usize,
    pub config: SuperKMeansConfig,
    pub n_threads: u32,
    pub n_samples: usize,
    pub partial_d: u32,
    pub vertical_d: u32,
    pub centroids_pdx: Vec<T>,
    pub centroids_pdx_indices: Vec<u32>,
    pub horizontal_centroids: Vec<T>,
    pub prev_centroids: Vec<T>,
    pub partial_horizontal_centroids: Vec<T>,
    pub pdx_index: Option<IndexPdxIvf>,
    pub assignments: Vec<u32>,
    pub distances: Vec<u32>,
    pub cluster_sizes: Vec<u32>,
    pub sampled_indices: Vec<usize>,
    pub iteration_stats: Vec<IterationRecord>,
    pub trained: bool,
    pub n_split: usize,
}

impl<T> SuperKMeans<T> {
    /// Nothing has been trained, and all buffers are empty.
    pub open spec fn is_fresh(self) -> bool {
        &&& !self.trained
        &&& self.n_samples == 0
        &&& self.partial_d == 0
        &&& self.vertical_d == 0
        &&& self.n_split == 0
        &&& self.pdx_index is None
        &&& self.centroids_pdx@.len() == 0
        &&& self.centroids_pdx_indices@.len() == 0
        &&& self.horizontal_centroids@.len() == 0
        &&& self.prev_centroids@.len() == 0
        &&& self.partial_horizontal_centroids@.len() == 0
        &&& self.assignments@.len() == 0
        &&& self.distances@.len() == 0
        &&& self.cluster_sizes@.len() == 0
        &&& self.sampled_indices@.len() == 0
        &&& self.iteration_stats@.len() == 0
    }

    /// The buffers have the sizes that starting a run gives them, and samples
    /// are assigned to clusters that there are.
    pub open spec fn is_started(self) -> bool {
        &&& 0 < self.d <= u32::MAX
        &&& 0 < self.n_clusters <= u32::MAX
        &&& self.partial_d <= self.vertical_d
        &&& self.vertical_d == vertical_part(self.d as nat)
        &&& self.horizontal_centroids@.len() == self.n_clusters * self.d
        &&& self.prev_centroids@.len() == self.n_clusters * self.d
        &&& self.centroids_pdx@.len() == self.n_clusters * self.d
        &&& self.partial_horizontal_centroids@.len() == self.n_clusters * vertical_part(
            self.d as nat,
        )
        &&& self.cluster_sizes@.len() == self.n_clusters
        &&& self.distances@.len() == self.assignments@.len()
        &&& self.centroids_pdx_indices@.len() == self.n_clusters
        &&& forall|c: int|
            0 <= c < self.n_clusters ==> #[trigger] self.centroids_pdx_indices@[c] == c
        &&& self.pdx_index matches Some(index) && index.describes(
            self.n_clusters as int,
            self.d as int,
        )
        &&& forall|i: int|
            0 <= i < self.assignments@.len() ==> #[trigger] self.assignments@[i] < self.n_clusters
    }
}

/// How many vectors a run trains on: all for the fraction one, otherwise their
/// share, but no more than the clusters may have.
pub open spec fn samples_for(config: SuperKMeansConfig, n: nat, n_clusters: nat) -> nat {
    let share = share_down(n, config.sampling_fraction);
    let by_n = if share <= usize::MAX {
        share
    } else {
        usize::MAX as nat
    };
    let by_clusters = n_clusters * config.max_points_per_cluster as nat;
    if config.sampling_fraction == ONE_BITS {
        n
    } else if by_n <= by_clusters {
        by_n
    } else {
        by_clusters
    }
}

/// Partial distances first cover half of the vertical dimensions, but at least
/// sixteen, and no more than there are.
pub open spec fn first_partial_d(vertical: u32) -> u32 {
    let half = vertical / 2;
    let wanted = if half < MIN_PARTIAL_D {
        MIN_PARTIAL_D
    } else {
        half
    };
    if wanted > vertical {
        vertical
    } else {
        wanted
    }
}

/// Whether vectors and centroids are always compared in full.
pub open spec fn never_prunes(config: SuperKMeansConfig, d: usize, n_clusters: usize) -> bool {
    d < DIMENSION_THRESHOLD_FOR_PRUNING || config.use_blas_only || n_clusters
        <= N_CLUSTERS_THRESHOLD_FOR_PRUNING
}

/// Which way partial distances are to be lengthened, and by how much.
#[derive(Debug, Clone, Copy, PartialEq, Eq, Structural)]
pub enum PartialChange {
    Keep,
    More(u32),
    Less(u32),
}

/// The fewest dimensions that partial distances are shortened to: sixteen, or
/// all vertical dimensions where there are fewer.
pub open spec fn least_partial_d(vertical_d: u32) -> u32 {
    if MIN_PARTIAL_D <= vertical_d {
        MIN_PARTIAL_D
    } else {
        vertical_d
    }
}

/// The number of dimensions that partial distances cover after a change: at
/// least one dimension more or less, within the vertical dimensions and not
/// below the fewest.
pub open spec fn tuned(partial_d: u32, vertical_d: u32, change: PartialChange) -> int {
    match change {
        PartialChange::Keep => partial_d as int,
        PartialChange::More(by) => {
            let step: int = if by < 1 {
                1
            } else {
                by as int
            };
            if partial_d + step <= vertical_d {
                partial_d + step
            } else {
                vertical_d as int
            }
        },
        PartialChange::Less(by) => {
            let step: int = if by < 1 {
                1
            } else {
                by as int
            };
            if partial_d - step >= least_partial_d(vertical_d) {
                partial_d - step
            } else {
                least_partial_d(vertical_d) as int
            }
        },
    }
}

/// Why a run ends before its last iteration.
#[derive(Debug, Clone, Copy, PartialEq, Eq, Structural)]
pub enum StopReason {
    ShiftBelowTolerance,
    CostStalled,
    RecallStalled,
}

/// The verdict after an iteration.
#[derive(Debug, Clone, Copy, PartialEq, Eq, Structural)]
pub struct StopDecision {
    pub stop: Option<StopReason>,
    /// The recall of this iteration is the best so far.
    pub new_best_recall: bool,
}

/// Decides whether a run ends after iteration `iter_idx`. The numbers have been
/// compared before: whether the centroids moved less than the tolerance,
/// whether the cost fell by less than the tolerance, and whether the recall
/// grew by more than its tolerance. `stalled` counts the iterations since the
/// recall last grew.
pub fn should_stop_early(
    shift_below_tol: bool,
    cost_stalled: bool,
    tracking_recall: bool,
    recall_grew: bool,
    iter_idx: usize,
    stalled: &mut usize,
) -> (r: StopDecision)
    requires
        *old(stalled) < usize::MAX,
    ensures
        shift_below_tol ==> r.stop == Some(StopReason::ShiftBelowTolerance),
        !shift_below_tol && iter_idx > 0 && cost_stalled ==> r.stop == Some(
            StopReason::CostStalled,
        ),
        !shift_below_tol && !(iter_idx > 0 && cost_stalled) ==> {
            &&& tracking_recall && !recall_grew && *old(stalled) + 1 >= RECALL_CONVERGENCE_PATIENCE
                ==> r.stop == Some(StopReason::RecallStalled)
            &&& !(tracking_recall && !recall_grew && *old(stalled) + 1
                >= RECALL_CONVERGENCE_PATIENCE) ==> r.stop is None
            &&& r.new_best_recall == (tracking_recall && recall_grew)
            &&& *final(stalled) == if !tracking_recall {
                *old(stalled) as int
            } else if recall_grew {
                0
            } else {
                *old(stalled) + 1
            }
        },
        shift_below_tol || (iter_idx > 0 && cost_stalled) ==> !r.new_best_recall && *final(stalled)
            == *old(stalled),
{
    if shift_below_tol {
        return StopDecision { stop: Some(StopReason::ShiftBelowTolerance), new_best_recall: false };
    }
    if iter_idx > 0 && cost_stalled {
        return StopDecision { stop: Some(StopReason::CostStalled), new_best_recall: false };
    }
    if tracking_recall {
        if recall_grew {
            *stalled = 0;
            return StopDecision { stop: None, new_best_recall: true };
        }
        *stalled = *stalled + 1;
        if *stalled >= RECALL_CONVERGENCE_PATIENCE {
            return StopDecision { stop: Some(StopReason::RecallStalled), new_best_recall: false };
        }
    }
    StopDecision { stop: None, new_best_recall: false }
}

impl<T: Copy> SuperKMeans<T> {
    /// A run that has not started.
    pub fn new(n_clusters: usize, dimensionality: usize, config: SuperKMeansConfig) -> (r:
        SuperKMeans<T>)
        requires
            n_clusters > 0,
            dimensionality > 0,
            config.iters > 0,
            0 < config.sampling_fraction <= ONE_BITS,
        ensures
            r.d == dimensionality,
            r.n_clusters == n_clusters,
            r.config == (SuperKMeansConfig {
                unrotate_centroids: config.unrotate_centroids && !config.data_already_rotated,
                ..config
            }),
            config.n_threads > 0 ==> r.n_threads == config.n_threads,
            r.is_fresh(),
    {
        let n_threads: u32 = if config.n_threads == 0 {
            #[verifier::truncate]
            (current_num_threads() as u32)
        } else {
            config.n_threads
        };
        let mut settings = config;
        if settings.data_already_rotated {
            settings.unrotate_centroids = false;
        }
        SuperKMeans {
            d: dimensionality,
            n_clusters,
            config: settings,
            n_threads,
            n_samples: 0,
            partial_d: 0,
            vertical_d: 0,
            centroids_pdx: Vec::new(),
            centroids_pdx_indices: Vec::new(),
            horizontal_centroids: Vec::new(),
            prev_centroids: Vec::new(),
            partial_horizontal_centroids: Vec::new(),
            pdx_index: None,
            assignments: Vec::new(),
            distances: Vec::new(),
            cluster_sizes: Vec::new(),
            sampled_indices: Vec::new(),
            iteration_stats: Vec::new(),
            trained: false,
            n_split: 0,
        }
    }

    /// A run with the default settings.
    pub fn with_default_config(n_clusters: usize, dimensionality: usize) -> (r: SuperKMeans<T>)
        requires
            n_clusters > 0,
            dimensionality > 0,
        ensures
            r.d == dimensionality,
            r.n_clusters == n_clusters,
            r.config == default_settings(),
            r.is_fresh(),
    {
        SuperKMeans::new(n_clusters, dimensionality, SuperKMeansConfig::default())
    }

    /// How many of `n` vectors the run trains on.
    pub fn compute_n_samples(&self, n: usize, n_clusters: usize) -> (r: usize)
        requires
            self.config.sampling_fraction <= ONE_BITS,
            n_clusters * self.config.max_points_per_cluster <= usize::MAX,
        ensures
            r == samples_for(self.config, n as nat, n_clusters as nat),
    {
        if self.config.sampling_fraction == ONE_BITS {
            return n;
        }
        let by_clusters: usize = n_clusters * self.config.max_points_per_cluster as usize;
        let by_n: usize = fraction_floor(n, self.config.sampling_fraction);
        if by_n <= by_clusters {
            by_n
        } else {
            by_clusters
        }
    }

    /// How many dimensions partial distances first cover.
    pub fn initial_partial_d(&self) -> (r: u32)
        ensures
            r == first_partial_d(self.vertical_d),
    {
        let half: u32 = self.vertical_d / 2;
        let wanted: u32 = if half < MIN_PARTIAL_D {
            MIN_PARTIAL_D
        } else {
            half
        };
        if wanted > self.vertical_d {
            self.vertical_d
        } else {
            wanted
        }
    }

    /// Allocates the buffers of a run over `n` vectors, of which `n_samples`
    /// are trained on.
    pub fn start(&mut self, n: usize, n_samples: usize, zero: T)
        requires
            !old(self).trained,
            0 < old(self).d <= u32::MAX,
            0 < old(self).n_clusters <= u32::MAX,
            old(self).n_clusters <= n_samples,
            old(self).n_clusters <= n,
            old(self).n_clusters * old(self).d <= usize::MAX,
        ensures
            final(self).n_samples == n_samples,
            final(self).iteration_stats@.len() == 0,
            final(self).vertical_d == vertical_part(old(self).d as nat),
            final(self).partial_d == first_partial_d(final(self).vertical_d),
            final(self).assignments@ == Seq::new(n as nat, |i: int| 0u32),
            final(self).distances@ == Seq::new(n as nat, |i: int| 0u32),
            final(self).cluster_sizes@ == Seq::new(old(self).n_clusters as nat, |i: int| 0u32),
            final(self).horizontal_centroids@ == filled_with(
                zero,
                old(self).n_clusters * old(self).d,
            ),
            final(self).prev_centroids@ == filled_with(zero, old(self).n_clusters * old(self).d),
            final(self).partial_horizontal_centroids@ == filled_with(
                zero,
                old(self).n_clusters * final(self).vertical_d,
            ),
            final(self).centroids_pdx@ == filled_with(zero, old(self).n_clusters * old(self).d),
            final(self).centroids_pdx_indices@ == Seq::new(
                old(self).n_clusters as nat,
                |i: int| i as u32,
            ),
            final(self).pdx_index matches Some(index) && index.describes(
                old(self).n_clusters as int,
                old(self).d as int,
            ),
            *final(self) == (SuperKMeans {
                n_samples: final(self).n_samples,
                partial_d: final(self).partial_d,
                vertical_d: final(self).vertical_d,
                centroids_pdx: final(self).centroids_pdx,
                centroids_pdx_indices: final(self).centroids_pdx_indices,
                horizontal_centroids: final(self).horizontal_centroids,
                prev_centroids: final(self).prev_centroids,
                partial_horizontal_centroids: final(self).partial_horizontal_centroids,
                pdx_index: final(self).pdx_index,
                assignments: final(self).assignments,
                distances: final(self).distances,
                cluster_sizes: final(self).cluster_sizes,
                iteration_stats: final(self).iteration_stats,
                ..*old(self)
            }),
            final(self).is_started(),
    {
        let k: usize = self.n_clusters;
        let d: usize = self.d;
        let split = get_dimension_split(d);
        let v: usize = split.vertical_d;
        proof {
            assert(k * v <= k * d) by (nonlinear_arith)
                requires
                    v <= d,
                    k >= 0,
            ;
            assert(0 <= k * v) by (nonlinear_arith);
        }
        self.iteration_stats = Vec::new();
        self.n_samples = n_samples;
        self.horizontal_centroids = filled(zero, k * d);
        self.prev_centroids = filled(zero, k * d);
        self.cluster_sizes = vec![0u32; k];
        self.assignments = vec![0u32; n];
        self.distances = vec![0u32; n];
        self.vertical_d = v as u32;
        self.partial_horizontal_centroids = filled(zero, k * v);
        self.partial_d = self.initial_partial_d();
        let index = IndexPdxIvf::new(k, d);
        proof {
            law_blocks_hold_all_rows(index, k as int, d as int);
        }
        self.centroids_pdx = filled(zero, index.data_buffer_len());
        let rows: usize = index.indices_buffer_len();
        let mut numbers: Vec<u32> = Vec::new();
        for i in 0..rows
            invariant
                rows <= u32::MAX,
                numbers@.len() == i,
                forall|j: int| 0 <= j < i ==> #[trigger] numbers@[j] == j,
        {
            numbers.push(i as u32);
        }
        self.centroids_pdx_indices = numbers;
        self.pdx_index = Some(index);
        proof {
            assert(self.assignments@ =~= Seq::new(n as nat, |i: int| 0u32));
            assert(self.distances@ =~= Seq::new(n as nat, |i: int| 0u32));
            assert(self.cluster_sizes@ =~= Seq::new(k as nat, |i: int| 0u32));
            assert(self.centroids_pdx_indices@ =~= Seq::new(k as nat, |i: int| i as u32));
        }
    }

    /// Picks as first centroids the vectors that come first when the numbers
    /// below `n_points` are shuffled with the seed of the run.
    pub fn generate_centroids(&mut self, data: &[T], n_points: usize)
        requires
            0 < old(self).d,
            old(self).n_clusters <= n_points,
            old(self).n_clusters * old(self).d <= usize::MAX,
            n_points * old(self).d <= data@.len(),
        ensures
            final(self).horizontal_centroids@.len() == old(self).n_clusters * old(self).d,
            holds_rows_of(
                final(self).horizontal_centroids@,
                data@,
                shuffled(all_below(n_points as nat), old(self).config.seed),
                old(self).n_clusters as int,
                old(self).d as int,
            ),
            *final(self) == (SuperKMeans {
                horizontal_centroids: final(self).horizontal_centroids,
                ..*old(self)
            }),
            old(self).is_started() ==> final(self).is_started(),
    {
        let order = shuffled_indices(n_points, self.config.seed);
        proof {
            assert forall|i: int| 0 <= i < self.n_clusters implies #[trigger] order@[i] * self.d
                + self.d <= data@.len() by {
                lemma_row_end(order@[i] as int, n_points as int, self.d as int);
            }
        }
        self.horizontal_centroids = copy_rows(data, &order, self.n_clusters, self.d);
    }

    /// Takes `n_samples` of `n` vectors: those that come first when the numbers
    /// below `n` are shuffled with the seed of the run, or all of them.
    pub fn sample_vectors(&mut self, data: &[T], n: usize, n_samples: usize) -> (out: Vec<T>)
        requires
            0 < old(self).d,
            n_samples <= n,
            n * old(self).d <= data@.len(),
        ensures
            out@.len() == n_samples * old(self).d,
            n_samples < n ==> {
                &&& final(self).sampled_indices@ == shuffled(
                    all_below(n as nat),
                    old(self).config.seed,
                )
                &&& is_permutation(final(self).sampled_indices@, n as nat)
                &&& holds_rows_of(
                    out@,
                    data@,
                    final(self).sampled_indices@,
                    n_samples as int,
                    old(self).d as int,
                )
            },
            n_samples == n ==> out@ == data@.take(n * old(self).d)
                && final(self).sampled_indices == old(self).sampled_indices,
            *final(self) == (SuperKMeans {
                sampled_indices: final(self).sampled_indices,
                ..*old(self)
            }),
            old(self).is_started() ==> final(self).is_started(),
    {
        let d: usize = self.d;
        proof {
            assert(data@.len() == data.len());
            assert(n_samples * d <= n * d) by (nonlinear_arith)
                requires
                    n_samples <= n,
                    d > 0,
            ;
            assert(0 <= n_samples * d) by (nonlinear_arith);
        }
        if n_samples < n {
            let order = shuffled_indices(n, self.config.seed);
            proof {
                assert forall|i: int| 0 <= i < n_samples implies #[trigger] order@[i] * d + d
                    <= data@.len() by {
                    lemma_row_end(order@[i] as int, n as int, d as int);
                }
            }
            let out = copy_rows(data, &order, n_samples, d);
            self.sampled_indices = order;
            return out;
        }
        let out = vstd::slice::slice_to_vec(&data[0..n_samples * d]);
        proof {
            assert(out@ =~= data@.take(n * d));
        }
        out
    }

    /// Lays centroids out in blocks.
    pub fn load_blocks(&mut self, rotated: &[T])
        requires
            0 < old(self).d,
            rotated@.len() == old(self).n_clusters * old(self).d,
            old(self).centroids_pdx@.len() == old(self).n_clusters * old(self).d,
        ensures
            final(self).centroids_pdx@.len() == old(self).centroids_pdx@.len(),
            is_blocked(
                final(self).centroids_pdx@,
                rotated@,
                old(self).n_clusters as int,
                old(self).d as int,
                1024,
            ),
            *final(self) == (SuperKMeans {
                centroids_pdx: final(self).centroids_pdx,
                ..*old(self)
            }),
            old(self).is_started() ==> final(self).is_started(),
    {
        pdxify(rotated, &mut self.centroids_pdx, self.n_clusters, self.d);
    }

    /// Whether iteration `iter_idx` compares vectors and centroids in full.
    pub fn uses_gemm_only(&self, iter_idx: usize) -> (r: bool)
        ensures
            r == (iter_idx == 0 || never_prunes(self.config, self.d, self.n_clusters)),
    {
        iter_idx == 0 || self.d < DIMENSION_THRESHOLD_FOR_PRUNING || self.config.use_blas_only
            || self.n_clusters <= N_CLUSTERS_THRESHOLD_FOR_PRUNING
    }

    /// Begins an iteration: from the second on, the centroids become the
    /// previous ones; sums and sizes start from zero.
    pub fn begin_iteration(&mut self, iter_idx: usize, zero: T)
        requires
            old(self).horizontal_centroids@.len() == old(self).n_clusters * old(self).d,
            old(self).prev_centroids@.len() == old(self).n_clusters * old(self).d,
            old(self).cluster_sizes@.len() == old(self).n_clusters,
        ensures
            final(self).prev_centroids@ == if iter_idx == 0 {
                old(self).prev_centroids@
            } else {
                old(self).horizontal_centroids@
            },
            final(self).horizontal_centroids@ == filled_with(
                zero,
                old(self).n_clusters * old(self).d,
            ),
            final(self).cluster_sizes@ == Seq::new(old(self).n_clusters as nat, |c: int| 0u32),
            *final(self) == (SuperKMeans {
                horizontal_centroids: final(self).horizontal_centroids,
                prev_centroids: final(self).prev_centroids,
                cluster_sizes: final(self).cluster_sizes,
                ..*old(self)
            }),
            old(self).is_started() ==> final(self).is_started(),
    {
        let k: usize = self.n_clusters;
        let len: usize = self.horizontal_centroids.len();
        if iter_idx > 0 {
            let mut held: Vec<T> = Vec::new();
            held.append(&mut self.horizontal_centroids);
            self.prev_centroids = held;
            proof {
                assert(self.prev_centroids@ =~= old(self).horizontal_centroids@);
            }
        }
        self.horizontal_centroids = filled(zero, len);
        self.cluster_sizes = vec![0u32; k];
        proof {
                        assert(self.cluster_sizes@ =~= Seq::new(k as nat, |c: int| 0u32));
        }
    }

    /// Adds every vector to the sum of its cluster, and counts it.
    pub fn update_centroids<F: Fn(T, T) -> T>(&mut self, data: &[T], n_samples: usize, plus: &F)
        requires
            is_function2(*plus),
            0 < old(self).d,
            n_samples <= old(self).assignments@.len(),
            n_samples * old(self).d <= data@.len(),
            old(self).cluster_sizes@.len() == old(self).n_clusters,
            old(self).horizontal_centroids@.len() == old(self).n_clusters * old(self).d,
            forall|i: int|
                0 <= i < n_samples ==> #[trigger] old(self).assignments@[i] < old(self).n_clusters,
            forall|c: int|
                0 <= c < old(self).n_clusters ==> #[trigger] old(self).cluster_sizes@[c]
                    + n_samples <= u32::MAX,
        ensures
            final(self).horizontal_centroids@.len() == old(self).horizontal_centroids@.len(),
            final(self).cluster_sizes@.len() == old(self).n_clusters,
            forall|p: int|
                0 <= p < old(self).horizontal_centroids@.len() ==> #[trigger] final(
                    self).horizontal_centroids@[p] == column_sum(
                    |a: T, b: T| value_of2(*plus, a, b),
                    old(self).horizontal_centroids@[p],
                    data@,
                    old(self).assignments@,
                    old(self).d as int,
                    row_of(p, old(self).d as int),
                    col_of(p, old(self).d as int),
                    n_samples as nat,
                ),
            forall|c: int|
                0 <= c < old(self).n_clusters ==> #[trigger] final(self).cluster_sizes@[c] == old(
                    self).cluster_sizes@[c] + members(old(self).assignments@, n_samples as nat, c),
            *final(self) == (SuperKMeans {
                horizontal_centroids: final(self).horizontal_centroids,
                cluster_sizes: final(self).cluster_sizes,
                ..*old(self)
            }),
            old(self).is_started() ==> final(self).is_started(),
    {
        add_rows_to_clusters(
            data,
            &self.assignments,
            n_samples,
            self.d,
            &mut self.horizontal_centroids,
            &mut self.cluster_sizes,
            plus,
        );
    }

    /// Turns the sums of the clusters that have vectors into means.
    pub fn scale_centroids<F: Fn(T, u32) -> T>(&mut self, scale: &F)
        requires
            is_function2(*scale),
            0 < old(self).d,
            old(self).cluster_sizes@.len() == old(self).n_clusters,
            old(self).horizontal_centroids@.len() == old(self).n_clusters * old(self).d,
        ensures
            final(self).horizontal_centroids@.len() == old(self).horizontal_centroids@.len(),
            forall|p: int|
                0 <= p < old(self).horizontal_centroids@.len() ==> #[trigger] final(
                    self).horizontal_centroids@[p] == {
                    let size = old(self).cluster_sizes@[row_of(p, old(self).d as int)];
                    if size == 0 {
                        old(self).horizontal_centroids@[p]
                    } else {
                        value_of2(*scale, old(self).horizontal_centroids@[p], size)
                    }
                },
            *final(self) == (SuperKMeans {
                horizontal_centroids: final(self).horizontal_centroids,
                ..*old(self)
            }),
            old(self).is_started() ==> final(self).is_started(),
    {
        scale_rows(&mut self.horizontal_centroids, &self.cluster_sizes, self.d, scale);
    }

    /// The first cluster from `from` on that has no vector.
    pub fn next_empty(&self, from: usize) -> (r: Option<usize>)
        requires
            self.cluster_sizes@.len() == self.n_clusters,
            from <= self.n_clusters,
        ensures
            r matches Some(c) ==> {
                &&& from <= c < self.n_clusters
                &&& self.cluster_sizes@[c as int] == 0
                &&& forall|e: int| from <= e < c ==> #[trigger] self.cluster_sizes@[e] != 0
            },
            r is None ==> forall|e: int|
                from <= e < self.n_clusters ==> #[trigger] self.cluster_sizes@[e] != 0,
    {
        for c in from..self.n_clusters
            invariant
                self.cluster_sizes@.len() == self.n_clusters,
                forall|e: int| from <= e < c ==> #[trigger] self.cluster_sizes@[e] != 0,
        {
            if self.cluster_sizes[c] == 0 {
                return Some(c);
            }
        }
        None
    }

    /// Whether a cluster has vectors enough to be split.
    pub fn can_split(&self, c: usize) -> (r: bool)
        requires
            c < self.cluster_sizes@.len(),
        ensures
            r == (self.cluster_sizes@[c as int] >= 2),
    {
        self.cluster_sizes[c] >= 2
    }

    /// Splits cluster `full` between itself and the empty cluster `empty`.
    pub fn split_cluster<U: Fn(T) -> T, D: Fn(T) -> T>(
        &mut self,
        empty: usize,
        full: usize,
        up: &U,
        down: &D,
    )
        requires
            is_function(*up),
            is_function(*down),
            0 < old(self).d,
            old(self).cluster_sizes@.len() == old(self).n_clusters,
            old(self).horizontal_centroids@.len() == old(self).n_clusters * old(self).d,
            empty < old(self).n_clusters,
            full < old(self).n_clusters,
            old(self).cluster_sizes@[empty as int] == 0,
            old(self).cluster_sizes@[full as int] >= 2,
            old(self).n_split < usize::MAX,
        ensures
            final(self).cluster_sizes@ == old(self).cluster_sizes@.update(
                empty as int,
                old(self).cluster_sizes@[full as int] / 2,
            ).update(
                full as int,
                (old(self).cluster_sizes@[full as int] - old(self).cluster_sizes@[full as int] / 2)
                    as u32,
            ),
            final(self).n_split == old(self).n_split + 1,
            final(self).horizontal_centroids@.len() == old(self).horizontal_centroids@.len(),
            forall|p: int|
                0 <= p < old(self).horizontal_centroids@.len() ==> #[trigger] final(
                    self).horizontal_centroids@[p] == {
                    let d = old(self).d as int;
                    let j = col_of(p, d);
                    let x = old(self).horizontal_centroids@[full * d + j];
                    if row_of(p, d) == empty {
                        if j % 2 == 0 {
                            value_of(*up, x)
                        } else {
                            value_of(*down, x)
                        }
                    } else if row_of(p, d) == full {
                        if j % 2 == 0 {
                            value_of(*down, x)
                        } else {
                            value_of(*up, x)
                        }
                    } else {
                        old(self).horizontal_centroids@[p]
                    }
                },
            *final(self) == (SuperKMeans {
                horizontal_centroids: final(self).horizontal_centroids,
                cluster_sizes: final(self).cluster_sizes,
                n_split: final(self).n_split,
                ..*old(self)
            }),
            old(self).is_started() ==> final(self).is_started(),
    {
        split_rows(
            &mut self.horizontal_centroids,
            self.n_clusters,
            self.d,
            empty,
            full,
            up,
            down,
        );
        let size: u32 = self.cluster_sizes[full];
        self.cluster_sizes[empty] = size / 2;
        self.cluster_sizes[full] = size - size / 2;
        self.n_split = self.n_split + 1;
    }

    /// Refreshes the blocked layout and the leading columns of the centroids.
    pub fn publish_centroids(&mut self)
        requires
            0 < old(self).d,
            old(self).horizontal_centroids@.len() == old(self).n_clusters * old(self).d,
            old(self).centroids_pdx@.len() == old(self).n_clusters * old(self).d,
            old(self).vertical_d <= old(self).d,
        ensures
            final(self).centroids_pdx@.len() == old(self).centroids_pdx@.len(),
            is_blocked(
                final(self).centroids_pdx@,
                old(self).horizontal_centroids@,
                old(self).n_clusters as int,
                old(self).d as int,
                1024,
            ),
            final(self).partial_horizontal_centroids@.len() == old(self).n_clusters * old(
                self).vertical_d,
            forall|i: int|
                0 <= i < old(self).n_clusters ==> #[trigger] final(
                    self).partial_horizontal_centroids@.subrange(
                    i * old(self).vertical_d,
                    i * old(self).vertical_d + old(self).vertical_d,
                ) == old(self).horizontal_centroids@.subrange(
                    i * old(self).d,
                    i * old(self).d + old(self).vertical_d,
                ),
            *final(self) == (SuperKMeans {
                centroids_pdx: final(self).centroids_pdx,
                partial_horizontal_centroids: final(self).partial_horizontal_centroids,
                ..*old(self)
            }),
            old(self).is_started() ==> final(self).is_started(),
    {
        pdxify(
            &self.horizontal_centroids,
            &mut self.centroids_pdx,
            self.n_clusters,
            self.d,
        );
        self.partial_horizontal_centroids =
        leading_columns(
            &self.horizontal_centroids,
            self.n_clusters,
            self.d,
            self.vertical_d as usize,
        );
    }

    /// Lengthens or shortens partial distances; says whether they changed.
    pub fn tune_partial_d(&mut self, change: PartialChange) -> (changed: bool)
        ensures
            final(self).partial_d == tuned(old(self).partial_d, old(self).vertical_d, change),
            changed == (final(self).partial_d != old(self).partial_d),
            *final(self) == (SuperKMeans {
                partial_d: final(self).partial_d,
                ..*old(self)
            }),
            old(self).is_started() ==> final(self).is_started(),
    {
        let before: u32 = self.partial_d;
        match change {
            PartialChange::Keep => {},
            PartialChange::More(by) => {
                let step: u64 = if by < 1 {
                    1
                } else {
                    by as u64
                };
                let longer: u64 = before as u64 + step;
                self.partial_d =
                if longer <= self.vertical_d as u64 {
                    longer as u32
                } else {
                    self.vertical_d
                };
            },
            PartialChange::Less(by) => {
                let step: u32 = if by < 1 {
                    1
                } else {
                    by
                };
                let shorter: u32 = before.saturating_sub(step);
                let least: u32 = if MIN_PARTIAL_D <= self.vertical_d {
                    MIN_PARTIAL_D
                } else {
                    self.vertical_d
                };
                self.partial_d =
                if shorter < least {
                    least
                } else {
                    shorter
                };
            },
        }
        before != self.partial_d
    }

    /// Records an iteration.
    pub fn record_iteration(&mut self, iter_idx: usize, gemm_only: bool, partial_d: u32)
        requires
            iter_idx < usize::MAX,
        ensures
            final(self).iteration_stats@ == old(self).iteration_stats@.push(
                IterationRecord {
                    iteration: (iter_idx + 1) as usize,
                    split: old(self).n_split,
                    partial_d: if gemm_only {
                        0
                    } else {
                        partial_d
                    },
                    is_gemm_only: gemm_only,
                },
            ),
            *final(self) == (SuperKMeans {
                iteration_stats: final(self).iteration_stats,
                ..*old(self)
            }),
            old(self).is_started() ==> final(self).is_started(),
    {
        self.iteration_stats.push(
            IterationRecord {
                iteration: iter_idx + 1,
                split: self.n_split,
                partial_d: if gemm_only {
                    0
                } else {
                    partial_d
                },
                is_gemm_only: gemm_only,
            },
        );
    }
}

/// `x` in each of `n` places.
pub open spec fn filled_with<T>(x: T, n: int) -> Seq<T> {
    Seq::new(n as nat, |i: int| x)
}

/// A vector that holds `x` in each of `n` places.
fn filled<T: Copy>(x: T, n: usize) -> (v: Vec<T>)
    ensures
        v@ == filled_with(x, n as int),
{
    let mut v: Vec<T> = Vec::new();
    for i in 0..n
        invariant
            v@.len() == i,
            forall|j: int| 0 <= j < i ==> #[trigger] v@[j] == x,
    {
        v.push(x);
    }
    proof {
        assert(v@ =~= filled_with(x, n as int));
    }
    v
}

/// Splitting a cluster keeps the number of vectors, and leaves neither side
/// empty.
pub proof fn law_split_keeps_total(sizes: Seq<u32>, empty: int, full: int)
    requires
        0 <= empty < sizes.len(),
        0 <= full < sizes.len(),
        sizes[empty] == 0,
        sizes[full] >= 2,
    ensures
        ({
            let after = sizes.update(empty, sizes[full] / 2).update(
                full,
                (sizes[full] - sizes[full] / 2) as u32,
            );
            &&& sum_of(after, after.len()) == sum_of(sizes, sizes.len())
            &&& after[empty] >= 1
            &&& after[full] >= 1
        }),
{
    let half = sizes[full] / 2;
    let rest = (sizes[full] - half) as u32;
    let once = sizes.update(empty, half);
    let after = once.update(full, rest);
    lemma_sum_update(sizes, empty, half, sizes.len());
    lemma_sum_update(once, full, rest, once.len());
}

proof fn lemma_sum_update(sizes: Seq<u32>, at: int, x: u32, n: nat)
    requires
        0 <= at < sizes.len(),
        n <= sizes.len(),
    ensures
        sum_of(sizes.update(at, x), n) == if at < n {
            sum_of(sizes, n) - sizes[at] + x
        } else {
            sum_of(sizes, n) as int
        },
    decreases n,
{
    if n > 0 {
        lemma_sum_update(sizes, at, x, (n - 1) as nat);
    }
}

/// Partial distances start within the vertical dimensions and stay there, and
/// do not fall below the fewest dimensions that they are shortened to.
pub proof fn law_partial_d_stays_in_range(partial_d: u32, vertical_d: u32, change: PartialChange)
    requires
        least_partial_d(vertical_d) <= partial_d <= vertical_d,
    ensures
        least_partial_d(vertical_d) <= first_partial_d(vertical_d) <= vertical_d,
        least_partial_d(vertical_d) <= tuned(partial_d, vertical_d, change) <= vertical_d,
{
}

/// How a partial dimension moves: by the given number, or by one where that is
/// zero, as far as the range goes.
pub proof fn law_partial_d_moves_by_the_change(partial_d: u32, vertical_d: u32, by: u32)
    requires
        least_partial_d(vertical_d) <= partial_d <= vertical_d,
    ensures
        tuned(partial_d, vertical_d, PartialChange::Keep) == partial_d,
        by > 0 && partial_d + by <= vertical_d ==> tuned(
            partial_d,
            vertical_d,
            PartialChange::More(by),
        ) == partial_d + by,
        by > 0 && partial_d + by > vertical_d ==> tuned(
            partial_d,
            vertical_d,
            PartialChange::More(by),
        ) == vertical_d,
        by > 0 && partial_d - by >= least_partial_d(vertical_d) ==> tuned(
            partial_d,
            vertical_d,
            PartialChange::Less(by),
        ) == partial_d - by,
        by > 0 && partial_d - by < least_partial_d(vertical_d) ==> tuned(
            partial_d,
            vertical_d,
            PartialChange::Less(by),
        ) == least_partial_d(vertical_d),
        tuned(partial_d, vertical_d, PartialChange::More(0)) == tuned(
            partial_d,
            vertical_d,
            PartialChange::More(1),
        ),
        tuned(partial_d, vertical_d, PartialChange::Less(0)) == tuned(
            partial_d,
            vertical_d,
            PartialChange::Less(1),
        ),
{
}

/// A sample is all of the vectors where the whole fraction is asked for; else it
/// holds no more than its share and no more than the clusters may have, and one
/// of the two exactly.
pub proof fn law_samples_meet_their_limits(config: SuperKMeansConfig, n: nat, n_clusters: nat)
    requires
        share_down(n, config.sampling_fraction) <= usize::MAX,
    ensures
        config.sampling_fraction == ONE_BITS ==> samples_for(config, n, n_clusters) == n,
        config.sampling_fraction != ONE_BITS ==> {
            let r = samples_for(config, n, n_clusters);
            let by_clusters = n_clusters * config.max_points_per_cluster;
            &&& r * pow2(shift(config.sampling_fraction)) <= scaled(n, config.sampling_fraction)
            &&& r <= by_clusters
            &&& r == by_clusters || (r + 1) * pow2(shift(config.sampling_fraction)) > scaled(
                n,
                config.sampling_fraction,
            )
        },
{
    law_share_down_is_the_floor(n, config.sampling_fraction);
    let share = share_down(n, config.sampling_fraction);
    let p = pow2(shift(config.sampling_fraction));
    let r = samples_for(config, n, n_clusters);
    if config.sampling_fraction != ONE_BITS {
        assert(r * p <= share * p) by (nonlinear_arith)
            requires
                r <= share,
        ;
    }
}

} // verus!
