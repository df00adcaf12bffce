//! First assignments of vectors that were not all trained on.
use vstd::prelude::*;
use crate::arith::{lemma_places_step, places};
use crate::fraction::ONE_BITS;
use crate::kmeans::balance::sum_of;
use crate::kmeans::superkmeans::algo::{
    default_settings, never_prunes, SuperKMeans, SuperKMeansConfig,
};
use crate::kmeans::superkmeans::random::{drawn, is_permutation, Draws};
use crate::kmeans::superkmeans::rows::lemma_row_end;

verus! {

/// Bits of the fraction four fifths.
pub const MOSTLY_BITS: u32 = 0x3f4c_cccd;

/// How the vectors of a trained run are assigned.
#[derive(Debug, Clone, Copy, PartialEq, Eq, Structural)]
pub enum AssignPath {
    /// Every vector is compared with every centroid.
    BruteForce,
    /// All vectors were trained on: their assignments are the starting point.
    Trained,
    /// Most were: the others start from a cluster that is drawn by size.
    Drawn,
    /// The others start from a centroid near the one of a coarser clustering.
    Coarse,
}

/// Which way the vectors of a trained run are assigned.
pub open spec fn path_of(config: SuperKMeansConfig, d: usize, n_clusters: usize) -> AssignPath {
    if never_prunes(config, d, n_clusters) {
        AssignPath::BruteForce
    } else if config.sampling_fraction == ONE_BITS {
        AssignPath::Trained
    } else if config.sampling_fraction > MOSTLY_BITS {
        AssignPath::Drawn
    } else {
        AssignPath::Coarse
    }
}

/// Says which way the vectors of a trained run are assigned.
pub fn assign_path(config: &SuperKMeansConfig, d: usize, n_clusters: usize) -> (r: AssignPath)
    requires
        config.sampling_fraction <= ONE_BITS,
    ensures
        r == path_of(*config, d, n_clusters),
{
    if config.use_blas_only || d < 128 || n_clusters <= 256 {
        AssignPath::BruteForce
    } else if config.sampling_fraction == ONE_BITS {
        AssignPath::Trained
    } else if config.sampling_fraction > MOSTLY_BITS {
        AssignPath::Drawn
    } else {
        AssignPath::Coarse
    }
}

/// The first cluster up to which the sizes add up to more than `pick`, from
/// `from` on with `before` counted already; cluster zero where there is none.
pub open spec fn cluster_at(sizes: Seq<u32>, pick: u32, from: nat, before: nat) -> u32
    decreases sizes.len() - from,
{
    if from >= sizes.len() {
        0
    } else if pick < before + sizes[from as int] {
        from as u32
    } else {
        cluster_at(sizes, pick, from + 1, before + sizes[from as int] as nat)
    }
}

/// The cluster that `pick` falls into when every cluster takes as many numbers
/// as it has vectors.
pub fn weighted_cluster(sizes: &[u32], pick: u32) -> (c: u32)
    requires
        sizes@.len() <= u32::MAX,
    ensures
        c == cluster_at(sizes@, pick, 0, 0),
{
    let mut acc: u64 = 0;
    for c in 0..sizes.len()
        invariant
            sizes@.len() <= u32::MAX,
            acc <= pick,
            cluster_at(sizes@, pick, 0, 0) == cluster_at(sizes@, pick, c as nat, acc as nat),
    {
        acc = acc + sizes[c] as u64;
        if (pick as u64) < acc {
            return c as u32;
        }
    }
    0
}

/// A pick below the number of vectors falls into a cluster that has vectors.
pub proof fn law_drawn_cluster_has_vectors(sizes: Seq<u32>, pick: u32)
    requires
        sizes.len() <= u32::MAX,
        pick < sum_of(sizes, sizes.len()),
    ensures
        cluster_at(sizes, pick, 0, 0) < sizes.len(),
        sizes[cluster_at(sizes, pick, 0, 0) as int] > 0,
{
    lemma_cluster_at(sizes, pick, 0);
}

proof fn lemma_cluster_at(sizes: Seq<u32>, pick: u32, from: nat)
    requires
        sizes.len() <= u32::MAX,
        from <= sizes.len(),
        sum_of(sizes, from) <= pick < sum_of(sizes, sizes.len()),
    ensures
        cluster_at(sizes, pick, from, sum_of(sizes, from)) < sizes.len(),
        sizes[cluster_at(sizes, pick, from, sum_of(sizes, from)) as int] > 0,
    decreases sizes.len() - from,
{
    if from < sizes.len() {
        assert(sum_of(sizes, from + 1) == sum_of(sizes, from) + sizes[from as int]);
        if pick >= sum_of(sizes, from + 1) {
            lemma_cluster_at(sizes, pick, from + 1);
        }
    }
}

/// The vectors that were trained on have their assignments in `result`:
/// `order` lists the vectors, those that were trained on first.
pub open spec fn holds_trained(
    result: Seq<u32>,
    order: Seq<usize>,
    assignments: Seq<u32>,
    n: int,
) -> bool {
    forall|i: int| 0 <= i < n ==> result[#[trigger] order[i] as int] == assignments[i]
}

/// Total of the sizes.
fn total_size(sizes: &[u32]) -> (total: u32)
    requires
        sum_of(sizes@, sizes@.len()) <= u32::MAX,
    ensures
        total == sum_of(sizes@, sizes@.len()),
{
    let mut total: u32 = 0;
    for c in 0..sizes.len()
        invariant
            sum_of(sizes@, sizes@.len()) <= u32::MAX,
            total == sum_of(sizes@, c as nat),
    {
        proof {
            lemma_sum_of_monotone(sizes@, (c + 1) as nat, sizes@.len());
        }
        total = total + sizes[c];
    }
    total
}

proof fn lemma_sum_of_monotone(sizes: Seq<u32>, a: nat, b: nat)
    requires
        a <= b,
    ensures
        sum_of(sizes, a) <= sum_of(sizes, b),
    decreases b,
{
    if a < b {
        lemma_sum_of_monotone(sizes, a, (b - 1) as nat);
    }
}

/// Places the assignments of the vectors that were trained on, and `others`
/// for the rest: `others[t]` for the vector that stands at `n_samples + t` in
/// `order`.
pub fn place_assignments(
    order: &[usize],
    assignments: &[u32],
    n_samples: usize,
    others: &[u32],
    n_vectors: usize,
) -> (result: Vec<u32>)
    requires
        is_permutation(order@, n_vectors as nat),
        n_samples <= n_vectors,
        n_samples <= assignments@.len(),
        others@.len() == n_vectors - n_samples,
    ensures
        result@.len() == n_vectors,
        holds_trained(result@, order@, assignments@, n_samples as int),
        forall|i: int|
            n_samples <= i < n_vectors ==> result@[#[trigger] order@[i] as int] == others@[i
                - n_samples],
{
    let mut result: Vec<u32> = vec![0u32; n_vectors];
    for i in 0..n_vectors
        invariant
            is_permutation(order@, n_vectors as nat),
            n_samples <= n_vectors,
            n_samples <= assignments@.len(),
            others@.len() == n_vectors - n_samples,
            result@.len() == n_vectors,
            forall|m: int|
                0 <= m < i ==> result@[#[trigger] order@[m] as int] == if m < n_samples {
                    assignments@[m]
                } else {
                    others@[m - n_samples]
                },
    {
        let at: usize = order[i];
        let x: u32 = if i < n_samples {
            assignments[i]
        } else {
            others[i - n_samples]
        };
        let ghost before = result@;
        proof {
            assert(order@[i as int] < n_vectors);
        }
        result[at] = x;
        proof {
            assert forall|m: int| 0 <= m < i + 1 implies result@[#[trigger] order@[m] as int]
                == if m < n_samples {
                assignments@[m]
            } else {
                others@[m - n_samples]
            } by {
                if m < i {
                    assert(order@[m] != order@[i as int]);
                    assert(order@[m] < n_vectors);
                    assert(before[order@[m] as int] == result@[order@[m] as int]);
                }
            }
        }
    }
    result
}

/// How many numbers the clusters take when one is drawn by size: as many as
/// there are vectors, or one where there are none.
pub open spec fn draw_bound(sizes: Seq<u32>) -> u32 {
    if sum_of(sizes, sizes.len()) == 0 {
        1
    } else {
        sum_of(sizes, sizes.len()) as u32
    }
}

/// The seed after `seed`.
pub open spec fn next_seed(seed: u64) -> u64 {
    if seed == u64::MAX {
        0
    } else {
        (seed + 1) as u64
    }
}

/// First assignments where the other vectors draw a cluster by size, with the
/// generator after the one of the run.
pub fn drawn_assignments(
    order: &[usize],
    assignments: &[u32],
    n_samples: usize,
    cluster_sizes: &[u32],
    n_vectors: usize,
    seed: u64,
) -> (result: Vec<u32>)
    requires
        is_permutation(order@, n_vectors as nat),
        n_samples <= n_vectors,
        n_samples <= assignments@.len(),
        0 < cluster_sizes@.len() <= u32::MAX,
        sum_of(cluster_sizes@, cluster_sizes@.len()) <= u32::MAX,
    ensures
        result@.len() == n_vectors,
        holds_trained(result@, order@, assignments@, n_samples as int),
        forall|i: int|
            n_samples <= i < n_vectors ==> {
                let c = result@[#[trigger] order@[i] as int];
                let pick = drawn(
                    next_seed(seed),
                    draw_bound(cluster_sizes@),
                    (i - n_samples) as nat,
                );
                &&& c == cluster_at(cluster_sizes@, pick, 0, 0)
                &&& c < cluster_sizes@.len()
                &&& sum_of(cluster_sizes@, cluster_sizes@.len()) > 0 ==> cluster_sizes@[c as int]
                    > 0
                &&& sum_of(cluster_sizes@, cluster_sizes@.len()) == 0 ==> c == 0
            },
{
    let total: u32 = total_size(cluster_sizes);
    let bound: u32 = if total == 0 {
        1
    } else {
        total
    };
    let mut draws = Draws::new(seed.wrapping_add(1), bound);
    let rest: usize = n_vectors - n_samples;
    let mut others: Vec<u32> = Vec::new();
    for t in 0..rest
        invariant
            0 < cluster_sizes@.len() <= u32::MAX,
            total == sum_of(cluster_sizes@, cluster_sizes@.len()),
            bound == if total == 0 {
                1
            } else {
                total
            },
            bound == draw_bound(cluster_sizes@),
            draws.seed() == next_seed(seed),
            draws.bound() == bound,
            draws.taken() == t,
            others@.len() == t,
            forall|m: int|
                0 <= m < t ==> {
                    let c = #[trigger] others@[m];
                    &&& c == cluster_at(
                        cluster_sizes@,
                        drawn(next_seed(seed), bound, m as nat),
                        0,
                        0,
                    )
                    &&& c < cluster_sizes@.len()
                    &&& total > 0 ==> cluster_sizes@[c as int] > 0
                    &&& total == 0 ==> c == 0
                },
    {
        let pick: u32 = draws.next();
        let c: u32 = weighted_cluster(cluster_sizes, pick);
        proof {
            if total > 0 {
                law_drawn_cluster_has_vectors(cluster_sizes@, pick);
            } else {
                lemma_cluster_at_zero(cluster_sizes@, pick, 0, 0);
            }
        }
        others.push(c);
    }
    place_assignments(order, assignments, n_samples, &others, n_vectors)
}

/// Without vectors there is no cluster to draw but the first.
proof fn lemma_cluster_at_zero(sizes: Seq<u32>, pick: u32, from: nat, before: nat)
    requires
        from <= sizes.len(),
        before == 0,
        sum_of(sizes, sizes.len()) == 0,
    ensures
        cluster_at(sizes, pick, from, before) == 0,
    decreases sizes.len() - from,
{
    if from < sizes.len() {
        lemma_sum_of_monotone(sizes, from + 1, sizes.len());
        assert(sum_of(sizes, from + 1) == sum_of(sizes, from) + sizes[from as int]);
        lemma_cluster_at_zero(sizes, pick, from + 1, 0);
    }
}

/// The last of the first `n` centroids that belongs to coarse cluster `m`, or
/// zero where none does.
pub open spec fn last_member(coarse_of: Seq<u32>, m: int, n: nat) -> u32
    decreases n,
{
    if n == 0 {
        0
    } else if coarse_of[n - 1] == m {
        (n - 1) as u32
    } else {
        last_member(coarse_of, m, (n - 1) as nat)
    }
}

/// A centroid for each coarse cluster.
pub fn representatives(coarse_of: &[u32], n_coarse: usize) -> (r: Vec<u32>)
    requires
        coarse_of@.len() <= u32::MAX,
        forall|c: int| 0 <= c < coarse_of@.len() ==> #[trigger] coarse_of@[c] < n_coarse,
    ensures
        r@.len() == n_coarse,
        forall|m: int|
            0 <= m < n_coarse ==> #[trigger] r@[m] == last_member(
                coarse_of@,
                m,
                coarse_of@.len(),
            ),
{
    let mut r: Vec<u32> = vec![0u32; n_coarse];
    for c in 0..coarse_of.len()
        invariant
            coarse_of@.len() <= u32::MAX,
            forall|c: int| 0 <= c < coarse_of@.len() ==> #[trigger] coarse_of@[c] < n_coarse,
            r@.len() == n_coarse,
            forall|m: int|
                0 <= m < n_coarse ==> #[trigger] r@[m] == last_member(coarse_of@, m, c as nat),
    {
        r[coarse_of[c] as usize] = c as u32;
    }
    r
}

/// First assignments where the other vectors start from the representative of
/// their coarse cluster. `vector_coarse` gives the coarse cluster of every
/// vector, `coarse_of` that of every centroid.
pub fn coarse_assignments(
    order: &[usize],
    assignments: &[u32],
    n_samples: usize,
    coarse_of: &[u32],
    n_coarse: usize,
    vector_coarse: &[u32],
    n_vectors: usize,
) -> (result: Vec<u32>)
    requires
        is_permutation(order@, n_vectors as nat),
        n_samples <= n_vectors,
        n_samples <= assignments@.len(),
        coarse_of@.len() <= u32::MAX,
        vector_coarse@.len() == n_vectors,
        forall|c: int| 0 <= c < coarse_of@.len() ==> #[trigger] coarse_of@[c] < n_coarse,
        forall|i: int| 0 <= i < n_vectors ==> #[trigger] vector_coarse@[i] < n_coarse,
    ensures
        result@.len() == n_vectors,
        holds_trained(result@, order@, assignments@, n_samples as int),
        forall|i: int|
            n_samples <= i < n_vectors ==> result@[#[trigger] order@[i] as int] == last_member(
                coarse_of@,
                vector_coarse@[order@[i] as int] as int,
                coarse_of@.len(),
            ),
{
    let reps = representatives(coarse_of, n_coarse);
    let rest: usize = n_vectors - n_samples;
    let mut others: Vec<u32> = Vec::new();
    for t in 0..rest
        invariant
            is_permutation(order@, n_vectors as nat),
            rest == n_vectors - n_samples,
            n_samples <= n_vectors,
            vector_coarse@.len() == n_vectors,
            forall|i: int| 0 <= i < n_vectors ==> #[trigger] vector_coarse@[i] < n_coarse,
            reps@.len() == n_coarse,
            forall|m: int|
                0 <= m < n_coarse ==> #[trigger] reps@[m] == last_member(
                    coarse_of@,
                    m,
                    coarse_of@.len(),
                ),
            others@.len() == t,
            forall|m: int|
                0 <= m < t ==> #[trigger] others@[m] == last_member(
                    coarse_of@,
                    vector_coarse@[order@[n_samples + m] as int] as int,
                    coarse_of@.len(),
                ),
    {
        let at: usize = order[n_samples + t];
        proof {
            assert(order@[n_samples + t] < n_vectors);
            assert(vector_coarse@[at as int] < n_coarse);
        }
        others.push(reps[vector_coarse[at] as usize]);
    }
    place_assignments(order, assignments, n_samples, &others, n_vectors)
}

impl<T> SuperKMeans<T> {
    /// There is what a path starts from: the order in which the vectors were
    /// sampled, cluster sizes, or the coarse clusters of centroids and vectors.
    pub open spec fn can_start(
        self,
        path: AssignPath,
        coarse_of: Seq<u32>,
        n_coarse: int,
        vector_coarse: Seq<u32>,
    ) -> bool {
        &&& path != AssignPath::Trained ==> {
            &&& is_permutation(self.sampled_indices@, self.assignments@.len())
            &&& self.n_samples <= self.assignments@.len()
        }
        &&& path == AssignPath::Drawn ==> {
            &&& 0 < self.cluster_sizes@.len() <= u32::MAX
            &&& sum_of(self.cluster_sizes@, self.cluster_sizes@.len()) <= u32::MAX
        }
        &&& path == AssignPath::Coarse ==> {
            &&& coarse_of.len() <= u32::MAX
            &&& vector_coarse.len() == self.assignments@.len()
            &&& forall|c: int| 0 <= c < coarse_of.len() ==> #[trigger] coarse_of[c] < n_coarse
            &&& forall|i: int|
                0 <= i < vector_coarse.len() ==> #[trigger] vector_coarse[i] < n_coarse
        }
    }

    /// `start` holds the first assignments: those that were trained, and for
    /// the other vectors a drawn cluster or the representative of their coarse
    /// cluster.
    pub open spec fn starts_with(
        self,
        path: AssignPath,
        coarse_of: Seq<u32>,
        vector_coarse: Seq<u32>,
        start: Seq<u32>,
    ) -> bool {
        &&& start.len() == self.assignments@.len()
        &&& path == AssignPath::Trained ==> start == self.assignments@
        &&& path != AssignPath::Trained ==> holds_trained(
            start,
            self.sampled_indices@,
            self.assignments@,
            self.n_samples as int,
        )
        &&& path == AssignPath::Drawn ==> forall|i: int|
            self.n_samples <= i < start.len()
                ==> start[#[trigger] self.sampled_indices@[i] as int] == cluster_at(
                self.cluster_sizes@,
                drawn(
                    next_seed(self.config.seed),
                    draw_bound(self.cluster_sizes@),
                    (i - self.n_samples) as nat,
                ),
                0,
                0,
            )
        &&& path == AssignPath::Coarse ==> forall|i: int|
            self.n_samples <= i < start.len()
                ==> start[#[trigger] self.sampled_indices@[i] as int] == last_member(
                coarse_of,
                vector_coarse[self.sampled_indices@[i] as int] as int,
                coarse_of.len(),
            )
    }

    /// First assignments of the vectors of a trained run, before each looks for
    /// a nearer centroid. `coarse_of` and `vector_coarse` give the coarse
    /// clusters of centroids and vectors, where the path needs them.
    pub fn starting_assignments(
        &self,
        path: AssignPath,
        coarse_of: &[u32],
        n_coarse: usize,
        vector_coarse: &[u32],
    ) -> (result: Vec<u32>)
        requires
            path != AssignPath::BruteForce,
            self.can_start(path, coarse_of@, n_coarse as int, vector_coarse@),
        ensures
            self.starts_with(path, coarse_of@, vector_coarse@, result@),
    {
        let n: usize = self.assignments.len();
        match path {
            AssignPath::Drawn => drawn_assignments(
                &self.sampled_indices,
                &self.assignments,
                self.n_samples,
                &self.cluster_sizes,
                n,
                self.config.seed,
            ),
            AssignPath::Coarse => coarse_assignments(
                &self.sampled_indices,
                &self.assignments,
                self.n_samples,
                coarse_of,
                n_coarse,
                vector_coarse,
                n,
            ),
            _ => vstd::slice::slice_to_vec(&self.assignments),
        }
    }
}

/// The settings of the coarse clustering that a run with `config` needs: ten
/// iterations over all centroids, what the run says of its data, messages and
/// seed, and the default settings otherwise.
pub open spec fn coarse_settings_of(config: SuperKMeansConfig) -> SuperKMeansConfig {
    SuperKMeansConfig {
        iters: 10,
        sampling_fraction: ONE_BITS,
        use_blas_only: false,
        verbose: config.verbose,
        suppress_warnings: config.suppress_warnings,
        seed: config.seed,
        angular: config.angular,
        data_already_rotated: config.data_already_rotated,
        ..default_settings()
    }
}

/// Gives the settings of the coarse clustering.
pub fn coarse_settings(config: &SuperKMeansConfig) -> (r: SuperKMeansConfig)
    ensures
        r == coarse_settings_of(*config),
{
    SuperKMeansConfig {
        iters: 10,
        sampling_fraction: ONE_BITS,
        use_blas_only: false,
        verbose: config.verbose,
        suppress_warnings: config.suppress_warnings,
        seed: config.seed,
        angular: config.angular,
        data_already_rotated: config.data_already_rotated,
        ..SuperKMeansConfig::default()
    }
}

/// The number of coarse clusters for `n` centroids: the integer square root.
pub fn coarse_count(n: usize) -> (r: usize)
    requires
        n < 0x10_0000_0000_0000,
    ensures
        r * r <= n,
        n < (r + 1) * (r + 1),
{
    let mut lo: u64 = 0;
    let mut hi: u64 = 0x400_0001;
    proof {
        assert(0x400_0001 * 0x400_0001 > 0x10_0000_0000_0000) by (nonlinear_arith);
    }
    while hi - lo > 1
        invariant
            n < 0x10_0000_0000_0000,
            lo < hi <= 0x400_0001,
            lo * lo <= n,
            n < hi * hi,
        decreases hi - lo,
    {
        let mid: u64 = lo + (hi - lo) / 2;
        proof {
            assert(mid * mid <= 0x400_0001 * 0x400_0001) by (nonlinear_arith)
                requires
                    0 <= mid <= 0x400_0001,
            ;
        }
        if mid * mid <= n as u64 {
            lo = mid;
        } else {
            hi = mid;
        }
    }
    proof {
        assert(hi == lo + 1);
        assert(lo <= lo * lo || lo == 0) by (nonlinear_arith)
            requires
                lo >= 0,
        ;
    }
    lo as usize
}

/// Whether one of the explored centroids of query `q` is `c`.
pub open spec fn explores(explored: Seq<u32>, q: int, width: int, c: u32) -> bool {
    exists|t: int| 0 <= t < width && #[trigger] explored[q * width + t] == c
}

/// How many of the first `n` true neighbours of query `q` belong to a cluster
/// that the query explores.
pub open spec fn found_neighbours(
    neighbours: Seq<u32>,
    k: int,
    assignments: Seq<u32>,
    explored: Seq<u32>,
    width: int,
    q: int,
    n: nat,
) -> nat
    decreases n,
{
    if n == 0 {
        0
    } else {
        found_neighbours(neighbours, k, assignments, explored, width, q, (n - 1) as nat)
            + if explores(
            explored,
            q,
            width,
            assignments[neighbours[q * k + (n - 1)] as int],
        ) {
            1nat
        } else {
            0
        }
    }
}

/// For every query, how many of its `k` true neighbours it finds by exploring
/// `width` clusters.
pub fn recall_hits(
    neighbours: &[u32],
    k: usize,
    assignments: &[u32],
    explored: &[u32],
    width: usize,
    n_queries: usize,
) -> (hits: Vec<usize>)
    requires
        n_queries * k <= neighbours@.len(),
        n_queries * width <= explored@.len(),
        forall|p: int|
            0 <= p < n_queries * k ==> #[trigger] neighbours@[p] < assignments@.len(),
    ensures
        hits@.len() == n_queries,
        forall|q: int|
            0 <= q < n_queries ==> #[trigger] hits@[q] == found_neighbours(
                neighbours@,
                k as int,
                assignments@,
                explored@,
                width as int,
                q,
                k as nat,
            ),
        forall|q: int| 0 <= q < n_queries ==> #[trigger] hits@[q] <= k,
{
    let mut hits: Vec<usize> = Vec::new();
    proof {
        assert(neighbours@.len() == neighbours.len());
        assert(explored@.len() == explored.len());
    }
    for q in 0..n_queries
        invariant
            n_queries * k <= neighbours@.len(),
            n_queries * width <= explored@.len(),
            neighbours@.len() <= usize::MAX,
            explored@.len() <= usize::MAX,
            forall|p: int|
                0 <= p < n_queries * k ==> #[trigger] neighbours@[p] < assignments@.len(),
            hits@.len() == q,
            forall|m: int|
                0 <= m < q ==> #[trigger] hits@[m] == found_neighbours(
                    neighbours@,
                    k as int,
                    assignments@,
                    explored@,
                    width as int,
                    m,
                    k as nat,
                ),
            forall|m: int| 0 <= m < q ==> #[trigger] hits@[m] <= k,
    {
        proof {
            lemma_row_end(q as int, n_queries as int, k as int);
            lemma_row_end(
                q as int,
                n_queries as int,
                width as int,
            );
        }
        let mut found: usize = 0;
        for j in 0..k
            invariant
                q < n_queries,
                q * k + k <= n_queries * k,
                n_queries * k <= neighbours@.len(),
                q * width + width <= explored@.len(),
                neighbours@.len() <= usize::MAX,
                explored@.len() <= usize::MAX,
                0 <= q * k,
                0 <= q * width,
                forall|p: int|
                    0 <= p < n_queries * k ==> #[trigger] neighbours@[p] < assignments@.len(),
                found == found_neighbours(
                    neighbours@,
                    k as int,
                    assignments@,
                    explored@,
                    width as int,
                    q as int,
                    j as nat,
                ),
                found <= j,
        {
            proof {
                assert(neighbours@[q * k + j] < assignments@.len());
            }
            let c: u32 = assignments[neighbours[q * k + j] as usize];
            let mut hit: bool = false;
            let mut t: usize = 0;
            while t < width && !hit
                invariant
                    q * width + width <= explored@.len(),
                    explored@.len() <= usize::MAX,
                    0 <= q * width,
                    t <= width,
                    hit ==> explores(explored@, q as int, width as int, c),
                    !hit ==> forall|u: int| 0 <= u < t ==> #[trigger] explored@[q * width + u] != c,
                decreases width - t,
            {
                if explored[q * width + t] == c {
                    hit = true;
                    proof {
                        assert(0 <= t < width && explored@[q * width + t] == c);
                    }
                }
                t = t + 1;
            }
            if hit {
                found = found + 1;
            }
        }
        hits.push(found);
    }
    hits
}

/// A pick below the number of vectors falls into the cluster whose numbers it is
/// among, when the clusters take their numbers one after another; any other
/// falls into cluster zero.
pub proof fn law_pick_falls_among_the_numbers_of_its_cluster(sizes: Seq<u32>, pick: u32)
    requires
        sizes.len() <= u32::MAX,
    ensures
        pick < sum_of(sizes, sizes.len()) ==> {
            let c = cluster_at(sizes, pick, 0, 0);
            c < sizes.len() && sum_of(sizes, c as nat) <= pick < sum_of(sizes, c as nat + 1)
        },
        pick >= sum_of(sizes, sizes.len()) ==> cluster_at(sizes, pick, 0, 0) == 0,
{
    lemma_pick(sizes, pick, 0);
}

proof fn lemma_pick(sizes: Seq<u32>, pick: u32, from: nat)
    requires
        sizes.len() <= u32::MAX,
        from <= sizes.len(),
        sum_of(sizes, from) <= pick,
    ensures
        pick < sum_of(sizes, sizes.len()) ==> {
            let c = cluster_at(sizes, pick, from, sum_of(sizes, from));
            c < sizes.len() && sum_of(sizes, c as nat) <= pick < sum_of(sizes, c as nat + 1)
        },
        pick >= sum_of(sizes, sizes.len()) ==> cluster_at(
            sizes,
            pick,
            from,
            sum_of(sizes, from),
        ) == 0,
    decreases sizes.len() - from,
{
    if from < sizes.len() {
        assert(sum_of(sizes, from + 1) == sum_of(sizes, from) + sizes[from as int]);
        lemma_sum_of_monotone(sizes, from + 1, sizes.len());
        if pick >= sum_of(sizes, from + 1) {
            lemma_pick(sizes, pick, from + 1);
        }
    }
}

/// The representative of a coarse cluster belongs to it, and no later centroid
/// does; a coarse cluster without centroids has centroid zero.
pub proof fn law_representatives_are_last(coarse_of: Seq<u32>, m: int, n: nat)
    requires
        n <= coarse_of.len() <= u32::MAX,
    ensures
        forall|c: int|
            0 <= c < n && #[trigger] coarse_of[c] == m ==> c <= last_member(coarse_of, m, n),
        (exists|c: int| 0 <= c < n && #[trigger] coarse_of[c] == m) ==> last_member(
            coarse_of,
            m,
            n,
        ) < n && coarse_of[last_member(coarse_of, m, n) as int] == m,
        !(exists|c: int| 0 <= c < n && #[trigger] coarse_of[c] == m) ==> last_member(
            coarse_of,
            m,
            n,
        ) == 0,
    decreases n,
{
    if n > 0 {
        law_representatives_are_last(coarse_of, m, (n - 1) as nat);
        if coarse_of[n - 1] != m && exists|c: int| 0 <= c < n && #[trigger] coarse_of[c] == m {
            let c = choose|c: int| 0 <= c < n && #[trigger] coarse_of[c] == m;
            assert(c < n - 1);
        }
    }
}

/// The found neighbours of a query are counted one by one: those whose cluster
/// is among the explored ones.
pub proof fn law_found_neighbours_are_counted(
    neighbours: Seq<u32>,
    k: int,
    assignments: Seq<u32>,
    explored: Seq<u32>,
    width: int,
    q: int,
    n: nat,
)
    ensures
        found_neighbours(neighbours, k, assignments, explored, width, q, n) == places(
            n,
            |j: int|
                exists|t: int|
                    0 <= t < width && #[trigger] explored[q * width + t]
                        == assignments[neighbours[q * k + j] as int],
        ).len(),
    decreases n,
{
    let p = |j: int|
        exists|t: int|
            0 <= t < width && #[trigger] explored[q * width + t] == assignments[neighbours[q * k
                + j] as int];
    if n > 0 {
        law_found_neighbours_are_counted(
            neighbours,
            k,
            assignments,
            explored,
            width,
            q,
            (n - 1) as nat,
        );
        lemma_places_step((n - 1) as nat, p);
    } else {
        lemma_places_step(0, p);
    }
}

} // verus!
