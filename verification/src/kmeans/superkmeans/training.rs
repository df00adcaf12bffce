//! The course of a training run: what to do next, and when to stop.
use vstd::prelude::*;
use vstd::arithmetic::div_mod::lemma_mod_multiples_basic;
use crate::fraction::ONE_BITS;
use crate::functions::{is_list_function, lemma_list_on, list_on};
use crate::kmeans::superkmeans::algo::{
    first_partial_d, never_prunes, samples_for, should_stop_early, StopDecision, StopReason,
    SuperKMeans, SuperKMeansConfig,
};
use crate::kmeans::superkmeans::common::RECALL_CONVERGENCE_PATIENCE;
use crate::kmeans::superkmeans::layout::is_blocked;
use crate::kmeans::superkmeans::random::{all_below, is_permutation, shuffled};
use crate::kmeans::superkmeans::rows::holds_rows_of;

verus! {

/// What a run does next.
#[derive(Debug, Clone, Copy, PartialEq, Eq, Structural)]
pub enum TrainAction {
    /// Compute the norms of the vectors over the leading dimensions.
    ComputePartialNorms,
    /// Run an iteration.
    Iterate { iter_idx: usize, gemm_only: bool },
    /// Hand the centroids out.
    Finish,
}

/// The course of a run.
#[derive(Debug, Clone, Copy, PartialEq, Eq, Structural)]
pub struct TrainLoop {
    pub iters: usize,
    pub iter_idx: usize,
    pub always_gemm_only: bool,
    pub partial_norms_computed: bool,
    pub early_termination: bool,
    pub tracking_recall: bool,
    pub stalled: usize,
    pub stopped: bool,
}

impl TrainLoop {
    /// Iterations are counted, and pruned iterations follow partial norms.
    pub open spec fn wf(self) -> bool {
        &&& self.iter_idx <= self.iters
        &&& self.stalled <= self.iter_idx
    }

    /// What is to be done in this state.
    pub open spec fn action(self) -> TrainAction {
        let gemm_only = self.iter_idx == 0 || self.always_gemm_only;
        if self.stopped || self.iter_idx >= self.iters {
            TrainAction::Finish
        } else if !gemm_only && !self.partial_norms_computed {
            TrainAction::ComputePartialNorms
        } else {
            TrainAction::Iterate { iter_idx: self.iter_idx, gemm_only }
        }
    }

    /// The start of a run of `n_clusters` clusters in `d` dimensions.
    pub fn new(
        config: &SuperKMeansConfig,
        d: usize,
        n_clusters: usize,
        n_queries: usize,
    ) -> (r: TrainLoop)
        ensures
            r.wf(),
            r == (TrainLoop {
                iters: config.iters as usize,
                iter_idx: 0,
                always_gemm_only: never_prunes(*config, d, n_clusters),
                partial_norms_computed: false,
                early_termination: config.early_termination,
                tracking_recall: n_queries > 0,
                stalled: 0,
                stopped: false,
            }),
    {
        TrainLoop {
            iters: config.iters as usize,
            iter_idx: 0,
            always_gemm_only: d < 128 || config.use_blas_only || n_clusters <= 256,
            partial_norms_computed: false,
            early_termination: config.early_termination,
            tracking_recall: n_queries > 0,
            stalled: 0,
            stopped: false,
        }
    }

    /// Says what to do next. Partial norms are asked for once.
    pub fn next_action(&mut self) -> (r: TrainAction)
        requires
            old(self).wf(),
        ensures
            final(self).wf(),
            r == old(self).action(),
            *final(self) == (TrainLoop {
                partial_norms_computed: old(self).partial_norms_computed || r
                    == TrainAction::ComputePartialNorms,
                ..*old(self)
            }),
    {
        let gemm_only: bool = self.iter_idx == 0 || self.always_gemm_only;
        if self.stopped || self.iter_idx >= self.iters {
            TrainAction::Finish
        } else if !gemm_only && !self.partial_norms_computed {
            self.partial_norms_computed = true;
            TrainAction::ComputePartialNorms
        } else {
            TrainAction::Iterate { iter_idx: self.iter_idx, gemm_only }
        }
    }

    /// Takes note of an iteration that has been run: whether the centroids
    /// moved less than the tolerance, whether the cost fell by less than the
    /// tolerance, and whether the recall grew by more than its tolerance.
    pub fn iterated(
        &mut self,
        shift_below_tol: bool,
        cost_stalled: bool,
        recall_grew: bool,
    ) -> (r: StopDecision)
        requires
            old(self).wf(),
            old(self).action() is Iterate,
        ensures
            final(self).wf(),
            final(self).iter_idx == old(self).iter_idx + 1,
            final(self).iters == old(self).iters,
            final(self).always_gemm_only == old(self).always_gemm_only,
            final(self).partial_norms_computed == old(self).partial_norms_computed,
            final(self).early_termination == old(self).early_termination,
            final(self).tracking_recall == old(self).tracking_recall,
            final(self).stopped == (r.stop is Some),
            !old(self).early_termination ==> r == (StopDecision {
                stop: None,
                new_best_recall: false,
            }) && final(self).stalled == old(self).stalled,
            old(self).early_termination ==> {
                let cost_stop = old(self).iter_idx > 0 && cost_stalled;
                let patience_lost = old(self).tracking_recall && !recall_grew && old(self).stalled
                    + 1 >= RECALL_CONVERGENCE_PATIENCE;
                &&& r.stop == if shift_below_tol {
                    Some(StopReason::ShiftBelowTolerance)
                } else if cost_stop {
                    Some(StopReason::CostStalled)
                } else if patience_lost {
                    Some(StopReason::RecallStalled)
                } else {
                    None
                }
                &&& r.new_best_recall == (!shift_below_tol && !cost_stop && old(
                    self).tracking_recall && recall_grew)
                &&& final(self).stalled == if shift_below_tol || cost_stop || !old(
                    self).tracking_recall {
                    old(self).stalled as int
                } else if recall_grew {
                    0
                } else {
                    old(self).stalled + 1
                }
            },
    {
        let idx: usize = self.iter_idx;
        self.iter_idx = idx + 1;
        if !self.early_termination {
            return StopDecision { stop: None, new_best_recall: false };
        }
        let mut stalled: usize = self.stalled;
        let r = should_stop_early(
            shift_below_tol,
            cost_stalled,
            self.tracking_recall,
            recall_grew,
            idx,
            &mut stalled,
        );
        self.stalled = stalled;
        self.stopped = r.stop.is_some();
        r
    }
}

/// Rows as a run works on them: rotated, or as they are where they have been
/// rotated before.
pub open spec fn turned<T, R: Fn(&[T]) -> Vec<T>>(
    rotate: R,
    already_rotated: bool,
    rows: Seq<T>,
) -> Seq<T> {
    if already_rotated {
        rows
    } else {
        list_on(rotate, rows)
    }
}

/// `picked` holds the rows that are trained on: all, or those that come first
/// in `order`.
pub open spec fn is_sample<T>(
    picked: Seq<T>,
    data: Seq<T>,
    order: Seq<usize>,
    n: int,
    n_samples: int,
    d: int,
) -> bool {
    &&& picked.len() == n_samples * d
    &&& n_samples == n ==> picked == data.take(n * d)
    &&& n_samples < n ==> holds_rows_of(picked, data, order, n_samples, d)
}

impl<T: Copy> SuperKMeans<T> {
    /// Rotates rows, unless they have been rotated before.
    fn turn<R: Fn(&[T]) -> Vec<T>>(&self, rotate: &R, rows: &[T]) -> (r: Vec<T>)
        requires
            is_list_function(*rotate, self.d as int),
            rows@.len() as int % self.d as int == 0,
        ensures
            r@ == turned(*rotate, self.config.data_already_rotated, rows@),
            r@.len() == rows@.len(),
    {
        if self.config.data_already_rotated {
            return vstd::slice::slice_to_vec(rows);
        }
        let r = rotate(rows);
        proof {
            lemma_list_on(*rotate, self.d as int, rows, r);
        }
        r
    }

    /// Prepares a run over `n` vectors: allocates its buffers, picks the first
    /// centroids, lays them out in blocks and gives the vectors to train on.
    pub fn prepare<R: Fn(&[T]) -> Vec<T>>(
        &mut self,
        data: &[T],
        n: usize,
        zero: T,
        rotate: &R,
    ) -> (samples: Vec<T>)
        requires
            !old(self).trained,
            is_list_function(*rotate, old(self).d as int),
            0 < old(self).d <= u32::MAX,
            0 < old(self).n_clusters <= u32::MAX,
            old(self).config.sampling_fraction <= ONE_BITS,
            old(self).n_clusters * old(self).config.max_points_per_cluster <= usize::MAX,
            old(self).n_clusters <= samples_for(
                old(self).config,
                n as nat,
                old(self).n_clusters as nat,
            ) <= n,
            n * old(self).d <= data@.len(),
        ensures
            final(self).is_started(),
            *final(self) == (SuperKMeans {
                n_samples: final(self).n_samples,
                partial_d: final(self).partial_d,
                vertical_d: final(self).vertical_d,
                centroids_pdx: final(self).centroids_pdx,
                centroids_pdx_indices: final(self).centroids_pdx_indices,
                horizontal_centroids: final(self).horizontal_centroids,
                prev_centroids: final(self).prev_centroids,
                partial_horizontal_centroids: final(self).partial_horizontal_centroids,
                pdx_index: final(self).pdx_index,
                assignments: final(self).assignments,
                distances: final(self).distances,
                cluster_sizes: final(self).cluster_sizes,
                sampled_indices: final(self).sampled_indices,
                iteration_stats: final(self).iteration_stats,
                ..*old(self)
            }),
            final(self).n_samples == samples_for(
                old(self).config,
                n as nat,
                old(self).n_clusters as nat,
            ),
            final(self).partial_d == first_partial_d(final(self).vertical_d),
            final(self).iteration_stats@.len() == 0,
            final(self).assignments@ == Seq::new(n as nat, |i: int| 0u32),
            final(self).distances@ == Seq::new(n as nat, |i: int| 0u32),
            final(self).cluster_sizes@ == Seq::new(old(self).n_clusters as nat, |i: int| 0u32),
            holds_rows_of(
                final(self).horizontal_centroids@,
                data@,
                shuffled(all_below(final(self).n_samples as nat), old(self).config.seed),
                old(self).n_clusters as int,
                old(self).d as int,
            ),
            final(self).prev_centroids@ == turned(
                *rotate,
                old(self).config.data_already_rotated,
                final(self).horizontal_centroids@,
            ),
            is_blocked(
                final(self).centroids_pdx@,
                final(self).prev_centroids@,
                old(self).n_clusters as int,
                old(self).d as int,
                1024,
            ),
            final(self).n_samples == n ==> final(self).sampled_indices == old(
                self).sampled_indices,
            final(self).n_samples < n ==> {
                &&& final(self).sampled_indices@ == shuffled(
                    all_below(n as nat),
                    old(self).config.seed,
                )
                &&& is_permutation(final(self).sampled_indices@, n as nat)
            },
            samples@.len() == final(self).n_samples * old(self).d,
            exists|picked: Seq<T>|
                {
                    &&& #[trigger] is_sample(
                        picked,
                        data@,
                        final(self).sampled_indices@,
                        n as int,
                        final(self).n_samples as int,
                        old(self).d as int,
                    )
                    &&& samples@ == turned(
                        *rotate,
                        old(self).config.data_already_rotated,
                        picked,
                    )
                },
    {
        let n_samples: usize = self.compute_n_samples(n, self.n_clusters);
        proof {
            assert(data@.len() == data.len());
            assert(self.n_clusters * self.d <= n_samples * self.d <= n * self.d)
                by (nonlinear_arith)
                requires
                    self.n_clusters <= n_samples <= n,
                    self.d > 0,
            ;
            lemma_mod_multiples_basic(self.n_clusters as int, self.d as int);
            lemma_mod_multiples_basic(n_samples as int, self.d as int);
        }
        self.start(n, n_samples, zero);
        self.generate_centroids(data, n_samples);
        let first = self.turn(rotate, &self.horizontal_centroids);
        self.load_blocks(&first);
        self.prev_centroids = first;
        let picked = self.sample_vectors(data, n, n_samples);
        let samples = self.turn(rotate, &picked);
        proof {
            assert(is_sample(
                picked@,
                data@,
                self.sampled_indices@,
                n as int,
                n_samples as int,
                self.d as int,
            ));
        }
        samples
    }
}

impl<T: Copy> SuperKMeans<T> {
    /// Ends a run and gives its centroids, row by row: rotated back, or as they
    /// are where the settings say so.
    pub fn finish<R: Fn(&[T]) -> Vec<T>>(&mut self, unrotate: &R) -> (c: Vec<T>)
        requires
            old(self).is_started(),
            is_list_function(*unrotate, old(self).d as int),
        ensures
            *final(self) == (SuperKMeans { trained: true, ..*old(self) }),
            c@ == if old(self).config.unrotate_centroids {
                list_on(*unrotate, old(self).horizontal_centroids@)
            } else {
                old(self).horizontal_centroids@
            },
            final(self).is_started(),
    {
        self.trained = true;
        proof {
            lemma_mod_multiples_basic(self.n_clusters as int, self.d as int);
        }
        let rows: &[T] = self.horizontal_centroids.as_slice();
        if self.config.unrotate_centroids {
            let c = unrotate(rows);
            proof {
                lemma_list_on(*unrotate, self.d as int, rows, c);
            }
            c
        } else {
            vstd::slice::slice_to_vec(rows)
        }
    }
}

/// The first iteration of a run compares in full, and an iteration that prunes
/// comes after partial norms.
pub proof fn law_pruning_needs_partial_norms(s: TrainLoop)
    requires
        s.wf(),
        s.action() matches TrainAction::Iterate { iter_idx, gemm_only } && !gemm_only,
    ensures
        s.iter_idx > 0,
        !s.always_gemm_only,
        s.partial_norms_computed,
{
}

/// A run ends: after its last iteration, or once it is stopped, there is
/// nothing left to do.
pub proof fn law_runs_end(s: TrainLoop)
    requires
        s.wf(),
        s.stopped || s.iter_idx == s.iters,
    ensures
        s.action() == TrainAction::Finish,
{
}

/// What a run does next: it finishes when it was stopped or has had its
/// iterations, and not before. The first iteration is in full, and so are all
/// where nothing is ever pruned; the partial norms are computed once, before the
/// first iteration that prunes.
pub proof fn law_actions_follow_the_run(s: TrainLoop)
    ensures
        s.action() == TrainAction::Finish <==> s.stopped || s.iter_idx >= s.iters,
        s.action() matches TrainAction::Iterate { iter_idx, gemm_only } ==> iter_idx == s.iter_idx
            && (gemm_only <==> s.iter_idx == 0 || s.always_gemm_only),
        s.action() == TrainAction::ComputePartialNorms <==> !s.stopped && s.iter_idx < s.iters
            && s.iter_idx > 0 && !s.always_gemm_only && !s.partial_norms_computed,
{
}

} // verus!
