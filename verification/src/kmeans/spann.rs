//! Balanced hierarchical clustering, and copies of points near a boundary.
//!
//! Clusters are made by bisection: a set of points that is to become `k`
//! clusters is cut into a part for `k / 2` clusters and a part for the others,
//! whose sizes are in proportion. Points are ordered by how much nearer they
//! are to one centroid than to the other, so the sizes are met exactly.
//!
//! What the coordinates are is left to functions that the caller gives: the
//! centroid of one point, the mean of some points, the distance of two points,
//! and the difference of a point's distances to two centroids. Distances and
//! differences are integer keys, ordered as the numbers that they stand for.
use vstd::prelude::*;
use crate::functions::{
    all_below, is_function2_below, is_function3_below, is_function_below, is_slice_function_below,
    lemma_value_on_below, value_of, value_of2, value_of3, value_on,
};
use crate::ranking::{
    is_stable_order, key_before, law_ordering_keeps_elements, lemma_order_exists, lemma_order_is_onto, lemma_order_of, order_of,
    stable_order,
};

verus! {

/// Factor between the seed of a cut and those of its parts.
pub const SEED_FACTOR: u64 = 0x9e37_79b9_7f4a_7c15;

/// A step of the generator of first points.
pub open spec fn xorshift(x: u64) -> u64 {
    let a = x ^ (x << 13);
    let b = a ^ (a >> 7);
    b ^ (b << 17)
}

/// A small generator; its state is never the seed zero.
pub struct TinyRng {
    state: u64,
}

impl TinyRng {
    pub closed spec fn view(&self) -> u64 {
        self.state
    }

    pub fn new(seed: u64) -> (r: TinyRng)
        ensures
            r@ == first_state(seed),
    {
        TinyRng {
            state: if seed == 0 {
                1
            } else {
                seed
            },
        }
    }

    pub fn next(&mut self) -> (x: u64)
        ensures
            x == xorshift(old(self)@),
            final(self)@ == x,
    {
        let mut x: u64 = self.state;
        x = x ^ (x << 13);
        x = x ^ (x >> 7);
        x = x ^ (x << 17);
        self.state = x;
        x
    }
}

pub open spec fn first_state(seed: u64) -> u64 {
    if seed == 0 {
        1
    } else {
        seed
    }
}

/// Seed of the part `part` (one or two) of a cut made with `seed`.
pub open spec fn part_seed(seed: u64, part: u64) -> u64 {
    seed.wrapping_mul(SEED_FACTOR).wrapping_add(part)
}

/// What a clustering is made of: the functions on points and centroids.
#[verifier::reject_recursive_types(C)]
pub struct BisectSpec<C> {
    pub point: spec_fn(u32) -> C,
    pub mean: spec_fn(Seq<u32>) -> C,
    pub spread: spec_fn(u32, u32) -> u64,
    pub key: spec_fn(u32, C, C) -> u64,
}

/// `indices` in the order of `keys`.
pub open spec fn reorder(indices: Seq<u32>, keys: Seq<u64>) -> Seq<u32> {
    Seq::new(indices.len(), |t: int| indices[order_of(keys)[t] as int])
}

impl<C> BisectSpec<C> {
    pub open spec fn keys(self, indices: Seq<u32>, a: C, b: C) -> Seq<u64> {
        Seq::new(indices.len(), |t: int| (self.key)(indices[t], a, b))
    }

    /// The points in the order in which `iters` refinements leave them, when
    /// the first `left` belong to the centroid `a` and the others to `b`.
    pub open spec fn refine(
        self,
        indices: Seq<u32>,
        left: int,
        a: C,
        b: C,
        iters: nat,
    ) -> Seq<u32>
        decreases iters,
    {
        if iters == 0 {
            indices
        } else {
            let sorted = reorder(indices, self.keys(indices, a, b));
            if iters == 1 {
                sorted
            } else {
                self.refine(
                    indices,
                    left,
                    (self.mean)(sorted.take(left)),
                    (self.mean)(sorted.skip(left)),
                    (iters - 1) as nat,
                )
            }
        }
    }

    /// Among the first `n` points, the last of those farthest from `from`.
    pub open spec fn farthest(self, indices: Seq<u32>, from: u32, n: nat) -> u32
        decreases n,
    {
        if n <= 1 {
            indices[0]
        } else {
            let best = self.farthest(indices, from, (n - 1) as nat);
            if (self.spread)(from, indices[n - 1]) >= (self.spread)(from, best) {
                indices[n - 1]
            } else {
                best
            }
        }
    }

    /// The point that a cut starts from.
    pub open spec fn first_point(self, indices: Seq<u32>, seed: u64) -> u32 {
        indices[(xorshift(first_state(seed)) as usize) as int % indices.len() as int]
    }

    /// The points of a cut, those of the left part first.
    pub open spec fn cut(self, indices: Seq<u32>, left: int, iters: nat, seed: u64) -> Seq<u32> {
        let from = self.first_point(indices, seed);
        let to = self.farthest(indices, from, indices.len());
        self.refine(indices, left, (self.point)(from), (self.point)(to), iters)
    }

    /// The clusters that `indices` are cut into.
    pub open spec fn leaves(self, indices: Seq<u32>, k: nat, iters: nat, seed: u64) -> Seq<Seq<u32>>
        decreases k,
    {
        if k <= 1 {
            seq![indices]
        } else {
            let left = left_size(indices.len(), k);
            let sorted = self.cut(indices, left as int, iters, seed);
            self.leaves(sorted.take(left as int), k / 2, iters, part_seed(seed, 1)) + self.leaves(
                sorted.skip(left as int),
                (k - k / 2) as nat,
                iters,
                part_seed(seed, 2),
            )
        }
    }
}

/// Points of the left part when `n` points become `k` clusters: their share,
/// but enough for each cluster of either side to have a point.
pub open spec fn left_size(n: nat, k: nat) -> nat {
    let share = n * (k / 2) / k;
    let at_least = if share < k / 2 {
        k / 2
    } else {
        share
    };
    let room: int = if n >= k - k / 2 {
        n - (k - k / 2)
    } else {
        0
    };
    if at_least <= room {
        at_least as nat
    } else {
        room as nat
    }
}

/// With at least as many points as clusters, the left part is the rounded-down
/// share.
pub proof fn lemma_left_size(n: nat, k: nat)
    requires
        2 <= k <= n,
    ensures
        left_size(n, k) == n * (k / 2) / k,
        k / 2 <= left_size(n, k),
        left_size(n, k) + (k - k / 2) <= n,
{
    let l = (k / 2) as int;
    let r = k - l;
    let share = n * l / (k as int);
    vstd::arithmetic::div_mod::lemma_fundamental_div_mod(n * l, k as int);
    vstd::arithmetic::div_mod::lemma_mod_bound(n * l, k as int);
    assert(l <= share) by (nonlinear_arith)
        requires
            n * l == k * share + (n * l) % (k as int),
            0 <= (n * l) % (k as int) < k,
            k <= n,
            l >= 0,
            k > 0,
    ;
    assert(share + r <= n) by (nonlinear_arith)
        requires
            n * l == k * share + (n * l) % (k as int),
            0 <= (n * l) % (k as int),
            k <= n,
            l + r == k,
            r >= 0,
            k > 0,
    ;
}

/// Cutting keeps every part within the bounds that `q` points per cluster, or
/// one more, set for it.
pub proof fn lemma_balance_step(n: nat, k: nat, q: nat)
    requires
        2 <= k <= n,
        q * k <= n <= (q + 1) * k,
    ensures
        q * (k / 2) <= left_size(n, k) <= (q + 1) * (k / 2),
        q * (k - k / 2) <= n - left_size(n, k) <= (q + 1) * (k - k / 2),
        n == q * k ==> left_size(n, k) == q * (k / 2),
{
    lemma_left_size(n, k);
    let l = (k / 2) as int;
    let r = k - l;
    let share = n * l / (k as int);
    let rem = (n * l) % (k as int);
    vstd::arithmetic::div_mod::lemma_fundamental_div_mod(n * l, k as int);
    vstd::arithmetic::div_mod::lemma_mod_bound(n * l, k as int);
    assert(q * l <= share) by (nonlinear_arith)
        requires
            n * l == k * share + rem,
            0 <= rem < k,
            q * k <= n,
            l >= 0,
            k > 0,
    ;
    assert(share <= (q + 1) * l) by (nonlinear_arith)
        requires
            n * l == k * share + rem,
            0 <= rem,
            n <= (q + 1) * k,
            l >= 0,
            k > 0,
    ;
    assert(q * r <= n - share) by (nonlinear_arith)
        requires
            n * l == k * share + rem,
            0 <= rem,
            q * k <= n,
            l + r == k,
            r >= 0,
            k > 0,
    ;
    assert(n - share <= (q + 1) * r) by (nonlinear_arith)
        requires
            n * l == k * share + rem,
            0 <= rem < k,
            n <= (q + 1) * k,
            l + r == k,
            r >= 0,
            k > 0,
    ;
    if n == q * k {
        assert(share <= q * l) by (nonlinear_arith)
            requires
                n * l == k * share + rem,
                0 <= rem,
                n == q * k,
                l >= 0,
                k > 0,
        ;
    }
}

/// Reordering keeps the points.
pub proof fn lemma_reorder(indices: Seq<u32>, keys: Seq<u64>)
    requires
        keys.len() == indices.len(),
        indices.len() <= usize::MAX,
    ensures
        reorder(indices, keys).len() == indices.len(),
        forall|x: u32| #[trigger] reorder(indices, keys).contains(x) <==> indices.contains(x),
        indices.no_duplicates() ==> reorder(indices, keys).no_duplicates(),
{
    lemma_order_exists(keys);
    let order = order_of(keys);
    let r = reorder(indices, keys);
    assert forall|x: u32| #[trigger] r.contains(x) <==> indices.contains(x) by {
        if r.contains(x) {
            let t = choose|t: int| 0 <= t < r.len() && r[t] == x;
            assert(indices[order[t] as int] == x);
        }
        if indices.contains(x) {
            let j = choose|j: int| 0 <= j < indices.len() && indices[j] == x;
            lemma_order_is_onto(keys, order, j);
            let t = choose|t: int| 0 <= t < order.len() && #[trigger] order[t] == j;
            assert(r[t] == x);
        }
    }
    if indices.no_duplicates() {
        assert forall|s: int, t: int| 0 <= s < t < r.len() implies r[s] != r[t] by {
            assert(key_before(keys, order[s] as int, order[t] as int));
        }
    }
}

pub proof fn lemma_refine<C>(
    spec: BisectSpec<C>,
    indices: Seq<u32>,
    left: int,
    a: C,
    b: C,
    iters: nat,
)
    requires
        indices.len() <= usize::MAX,
    ensures
        spec.refine(indices, left, a, b, iters).len() == indices.len(),
        forall|x: u32| #[trigger]
            spec.refine(indices, left, a, b, iters).contains(x) <==> indices.contains(x),
        indices.no_duplicates() ==> spec.refine(indices, left, a, b, iters).no_duplicates(),
    decreases iters,
{
    if iters > 0 {
        let keys = spec.keys(indices, a, b);
        lemma_reorder(indices, keys);
        let sorted = reorder(indices, keys);
        if iters > 1 {
            lemma_refine(
                spec,
                indices,
                left,
                (spec.mean)(sorted.take(left)),
                (spec.mean)(sorted.skip(left)),
                (iters - 1) as nat,
            );
        }
    }
}

/// The two parts of a list without repetition share nothing and make it up.
pub proof fn lemma_parts(s: Seq<u32>, left: int)
    requires
        0 <= left <= s.len(),
        s.no_duplicates(),
    ensures
        s.take(left).no_duplicates(),
        s.skip(left).no_duplicates(),
        forall|x: u32| #[trigger]
            s.contains(x) <==> s.take(left).contains(x) || s.skip(left).contains(x),
        forall|x: u32| !(#[trigger] s.take(left).contains(x) && s.skip(left).contains(x)),
{
    let a = s.take(left);
    let b = s.skip(left);
    assert forall|x: u32| #[trigger] s.contains(x) <==> a.contains(x) || b.contains(x) by {
        if s.contains(x) {
            let i = choose|i: int| 0 <= i < s.len() && s[i] == x;
            if i < left {
                assert(a[i] == x);
            } else {
                assert(b[i - left] == x);
            }
        }
        if a.contains(x) {
            let i = choose|i: int| 0 <= i < a.len() && a[i] == x;
            assert(s[i] == x);
        }
        if b.contains(x) {
            let i = choose|i: int| 0 <= i < b.len() && b[i] == x;
            assert(s[i + left] == x);
        }
    }
    assert forall|x: u32| !(#[trigger] a.contains(x) && b.contains(x)) by {
        if a.contains(x) && b.contains(x) {
            let i = choose|i: int| 0 <= i < a.len() && a[i] == x;
            let j = choose|j: int| 0 <= j < b.len() && b[j] == x;
            assert(s[i] == s[j + left]);
        }
    }
}

/// Every point of `indices` is in exactly one cluster, every cluster is
/// non-empty, and no cluster holds anything else.
pub open spec fn is_partition(leaves: Seq<Seq<u32>>, indices: Seq<u32>) -> bool {
    &&& forall|c: int| 0 <= c < leaves.len() ==> (#[trigger] leaves[c]).len() > 0
    &&& forall|c: int| 0 <= c < leaves.len() ==> (#[trigger] leaves[c]).no_duplicates()
    &&& forall|c: int, x: u32|
        0 <= c < leaves.len() && (#[trigger] leaves[c].contains(x)) ==> indices.contains(x)
    &&& forall|x: u32| #[trigger]
        indices.contains(x) ==> exists|c: int|
            0 <= c < leaves.len() && #[trigger] leaves[c].contains(x)
    &&& forall|c: int, e: int, x: u32|
        0 <= c < leaves.len() && 0 <= e < leaves.len() && #[trigger] leaves[c].contains(x)
            && #[trigger] leaves[e].contains(x) ==> c == e
}

/// Bisection partitions the points: every point is in exactly one of the `k`
/// clusters, and no cluster is empty.
pub proof fn law_bisection_partitions<C>(
    spec: BisectSpec<C>,
    indices: Seq<u32>,
    k: nat,
    iters: nat,
    seed: u64,
)
    requires
        0 < k <= indices.len() <= usize::MAX,
        indices.no_duplicates(),
    ensures
        spec.leaves(indices, k, iters, seed).len() == k,
        is_partition(spec.leaves(indices, k, iters, seed), indices),
    decreases k,
{
    let all = spec.leaves(indices, k, iters, seed);
    if k == 1 {
        assert(all =~= seq![indices]);
        assert forall|x: u32| #[trigger] indices.contains(x) implies exists|c: int|
            0 <= c < all.len() && #[trigger] all[c].contains(x) by {
            assert(all[0].contains(x));
        }
    } else {
        let n = indices.len();
        let left = left_size(n, k) as int;
        lemma_left_size(n, k);
        let from = spec.first_point(indices, seed);
        let to = spec.farthest(indices, from, n);
        lemma_refine(spec, indices, left, (spec.point)(from), (spec.point)(to), iters);
        let sorted = spec.cut(indices, left, iters, seed);
        lemma_parts(sorted, left);
        let a = sorted.take(left);
        let b = sorted.skip(left);
        let kl = (k / 2) as nat;
        let kr = (k - k / 2) as nat;
        law_bisection_partitions(spec, a, kl, iters, part_seed(seed, 1));
        law_bisection_partitions(spec, b, kr, iters, part_seed(seed, 2));
        let la = spec.leaves(a, kl, iters, part_seed(seed, 1));
        let lb = spec.leaves(b, kr, iters, part_seed(seed, 2));
        assert(all =~= la + lb);
        assert forall|c: int| 0 <= c < k implies (#[trigger] all[c]).len() > 0
            && all[c].no_duplicates() by {
            if c < kl {
                assert(all[c] == la[c]);
            } else {
                assert(all[c] == lb[c - kl]);
            }
        }
        assert forall|c: int, x: u32| 0 <= c < k && (#[trigger] all[c].contains(x)) implies
            indices.contains(x) by {
            if c < kl {
                assert(la[c].contains(x));
                assert(a.contains(x));
            } else {
                assert(lb[c - kl].contains(x));
                assert(b.contains(x));
            }
            assert(sorted.contains(x));
        }
        assert forall|x: u32| #[trigger] indices.contains(x) implies exists|c: int|
            0 <= c < k && #[trigger] all[c].contains(x) by {
            assert(sorted.contains(x));
            if a.contains(x) {
                let c = choose|c: int| 0 <= c < la.len() && #[trigger] la[c].contains(x);
                assert(all[c].contains(x));
            } else {
                let c = choose|c: int| 0 <= c < lb.len() && #[trigger] lb[c].contains(x);
                assert(all[c + kl].contains(x));
            }
        }
        assert forall|c: int, e: int, x: u32|
            0 <= c < k && 0 <= e < k && #[trigger] all[c].contains(x)
                && #[trigger] all[e].contains(x) implies c == e by {
            if c < kl {
                assert(la[c].contains(x));
                assert(a.contains(x));
            } else {
                assert(lb[c - kl].contains(x));
                assert(b.contains(x));
            }
            if e < kl {
                assert(la[e].contains(x));
                assert(a.contains(x));
            } else {
                assert(lb[e - kl].contains(x));
                assert(b.contains(x));
            }
        }
    }
}

/// Bisection balances the clusters: with `q` points per cluster on average,
/// rounded down, every cluster has `q` or `q + 1` points.
pub proof fn law_bisection_balances<C>(
    spec: BisectSpec<C>,
    indices: Seq<u32>,
    k: nat,
    iters: nat,
    seed: u64,
    q: nat,
    c: int,
)
    requires
        0 < k <= indices.len() <= usize::MAX,
        q * k <= indices.len() <= (q + 1) * k,
        0 <= c < k,
    ensures
        spec.leaves(indices, k, iters, seed).len() == k,
        q <= spec.leaves(indices, k, iters, seed)[c].len() <= q + 1,
        indices.len() == q * k ==> spec.leaves(indices, k, iters, seed)[c].len() == q,
    decreases k,
{
    let n = indices.len();
    let all = spec.leaves(indices, k, iters, seed);
    if k == 1 {
        assert(all =~= seq![indices]);
        assert(q * k == q && (q + 1) * k == q + 1) by (nonlinear_arith)
            requires
                k == 1,
        ;
    } else {
        let left = left_size(n, k) as int;
        lemma_left_size(n, k);
        lemma_balance_step(n, k, q);
        let from = spec.first_point(indices, seed);
        let to = spec.farthest(indices, from, n);
        lemma_refine(spec, indices, left, (spec.point)(from), (spec.point)(to), iters);
        let sorted = spec.cut(indices, left, iters, seed);
        let a = sorted.take(left);
        let b = sorted.skip(left);
        let kl = (k / 2) as nat;
        let kr = (k - k / 2) as nat;
        assert(q * k == q * kl + q * kr) by (nonlinear_arith)
            requires
                k == kl + kr,
        ;
        if c < kl {
            law_bisection_balances(spec, a, kl, iters, part_seed(seed, 1), q, c);
            law_bisection_balances(spec, b, kr, iters, part_seed(seed, 2), q, 0);
        } else {
            law_bisection_balances(spec, a, kl, iters, part_seed(seed, 1), q, 0);
            law_bisection_balances(spec, b, kr, iters, part_seed(seed, 2), q, c - kl);
        }
        let la = spec.leaves(a, kl, iters, part_seed(seed, 1));
        let lb = spec.leaves(b, kr, iters, part_seed(seed, 2));
        assert(all =~= la + lb);
    }
}

/// The functions that a clustering works with.
pub struct Geometry<P, M, S, K> {
    /// The centroid that a single point is.
    pub point: P,
    /// The mean of some points.
    pub mean: M,
    /// The key of the distance of two points.
    pub spread: S,
    /// The key of the difference of a point's distances to two centroids.
    pub key: K,
}

impl<P, M, S, K> Geometry<P, M, S, K> {
    pub open spec fn spec<C>(self) -> BisectSpec<C> where
        P: Fn(u32) -> C,
        M: Fn(&[u32]) -> C,
        S: Fn(u32, u32) -> u64,
        K: Fn(u32, &C, &C) -> u64,
     {
        BisectSpec {
            point: |i: u32| value_of(self.point, i),
            mean: |list: Seq<u32>| value_on(self.mean, list),
            spread: |i: u32, j: u32| value_of2(self.spread, i, j),
            key: |i: u32, a: C, b: C| value_of3(self.key, i, a, b),
        }
    }

    /// The functions accept the numbers of `n` points.
    pub open spec fn wf<C>(self, n: int) -> bool where
        P: Fn(u32) -> C,
        M: Fn(&[u32]) -> C,
        S: Fn(u32, u32) -> u64,
        K: Fn(u32, &C, &C) -> u64,
     {
        &&& is_function_below(self.point, n)
        &&& is_slice_function_below(self.mean, n)
        &&& is_function2_below(self.spread, n)
        &&& is_function3_below(self.key, n)
    }
}

/// Orders `indices` so that the first `target_left` belong to the left part.
fn balanced_bisect<C, P, M, S, K>(
    geo: &Geometry<P, M, S, K>,
    indices: &[u32],
    target_left: usize,
    n_iters: usize,
    seed: u64,
    Ghost(bound): Ghost<int>,
) -> (sorted: Vec<u32>) where
    P: Fn(u32) -> C,
    M: Fn(&[u32]) -> C,
    S: Fn(u32, u32) -> u64,
    K: Fn(u32, &C, &C) -> u64,

    requires
        geo.wf::<C>(bound),
        all_below(indices@, bound),
        0 < indices@.len(),
        target_left <= indices@.len(),
    ensures
        sorted@ == geo.spec::<C>().cut(
            indices@,
            target_left as int,
            n_iters as nat,
            seed,
        ),
{
    let ghost spec = geo.spec::<C>();
    let ghost all = indices@;
    let n: usize = indices.len();
    let mut rng = TinyRng::new(seed);
    let from: u32 = indices[(#[verifier::truncate] (rng.next() as usize)) % n];
    let mut to: u32 = indices[0];
    proof {
        assert(indices@.contains(from));
        assert(indices@.contains(indices@[0]));
    }
    for t in 1..n
        invariant
            geo.wf::<C>(bound),
            all_below(indices@, bound),
            spec == geo.spec::<C>(),
            n == indices@.len(),
            all == indices@,
            from < bound,
            to < bound,
            to == spec.farthest(all, from, t as nat),
    {
        assert(indices@.contains(indices@[t as int]));
        let d: u64 = (geo.spread)(from, indices[t]);
        let best: u64 = (geo.spread)(from, to);
        if d >= best {
            to = indices[t];
        }
    }
    let mut a: C = (geo.point)(from);
    let mut b: C = (geo.point)(to);
    let mut sorted: Vec<u32> = vstd::slice::slice_to_vec(indices);
    let ghost goal = spec.cut(all, target_left as int, n_iters as nat, seed);
    let mut done: usize = 0;
    while done < n_iters
        invariant
            geo.wf::<C>(bound),
            all_below(indices@, bound),
            spec == geo.spec::<C>(),
            n == indices@.len(),
            all == indices@,
            target_left <= n,
            done <= n_iters,
            done == n_iters ==> sorted@ == goal,
            done < n_iters ==> goal == spec.refine(
                all,
                target_left as int,
                a,
                b,
                (n_iters - done) as nat,
            ),
        decreases n_iters - done,
    {
        let mut keys: Vec<u64> = Vec::new();
        for t in 0..n
            invariant
                geo.wf::<C>(bound),
            all_below(indices@, bound),
                spec == geo.spec::<C>(),
                n == indices@.len(),
                all == indices@,
                keys@.len() == t,
                forall|j: int| 0 <= j < t ==> #[trigger] keys@[j] == (spec.key)(all[j], a, b),
        {
            assert(indices@.contains(indices@[t as int]));
            let key: u64 = (geo.key)(indices[t], &a, &b);
            keys.push(key);
        }
        let order = stable_order(&keys);
        sorted = Vec::new();
        for t in 0..n
            invariant
                n == indices@.len(),
                all == indices@,
                keys@.len() == n,
                is_stable_order(keys@, order@),
                sorted@.len() == t,
                forall|j: int| 0 <= j < t ==> #[trigger] sorted@[j] == all[order@[j] as int],
        {
            sorted.push(indices[order[t]]);
        }
        proof {
            assert(keys@ =~= spec.keys(all, a, b));
            lemma_order_of(keys@, order@);
            assert(sorted@ =~= reorder(all, spec.keys(all, a, b)));
        }
        let (left, right) = sorted.as_slice().split_at(target_left);
        let ghost before = sorted@;
        proof {
            assert forall|x: u32| #[trigger] before.contains(x) implies x < bound by {
                let j = choose|j: int| 0 <= j < before.len() && before[j] == x;
                assert(all[order@[j] as int] == x);
                assert(indices@.contains(x));
            }
            assert forall|x: u32| #[trigger] left@.contains(x) implies x < bound by {
                let j = choose|j: int| 0 <= j < left@.len() && left@[j] == x;
                assert(before[j] == x);
                assert(before.contains(x));
            }
            assert forall|x: u32| #[trigger] right@.contains(x) implies x < bound by {
                let j = choose|j: int| 0 <= j < right@.len() && right@[j] == x;
                assert(before[j + target_left] == x);
                assert(before.contains(x));
            }
        }
        let next_a: C = (geo.mean)(left);
        let next_b: C = (geo.mean)(right);
        proof {
            lemma_value_on_below(geo.mean, bound, left, next_a);
            lemma_value_on_below(geo.mean, bound, right, next_b);
            assert(left@ =~= before.take(target_left as int));
            assert(right@ =~= before.skip(target_left as int));
        }
        a = next_a;
        b = next_b;
        done += 1;
    }
    sorted
}

/// After a clustering that started from `before`, the points of cluster `c`
/// are marked `offset + c`, and points that are not among `indices` keep their
/// mark.
pub open spec fn is_assigned(
    leaves: Seq<Seq<u32>>,
    offset: int,
    indices: Seq<u32>,
    before: Seq<u32>,
    after: Seq<u32>,
) -> bool {
    &&& after.len() == before.len()
    &&& forall|c: int, x: u32|
        0 <= c < leaves.len() && #[trigger] leaves[c].contains(x) ==> after[x as int] == offset + c
    &&& forall|x: u32|
        x < before.len() && !indices.contains(x) ==> #[trigger] after[x as int] == before[x as int]
}

/// `a` and `b` share nothing and make up `indices`.
pub open spec fn is_split(a: Seq<u32>, b: Seq<u32>, indices: Seq<u32>) -> bool {
    &&& forall|x: u32| #[trigger] indices.contains(x) <==> a.contains(x) || b.contains(x)
    &&& forall|x: u32| !(#[trigger] a.contains(x) && b.contains(x))
}

proof fn lemma_assigned_join(
    la: Seq<Seq<u32>>,
    lb: Seq<Seq<u32>>,
    a: Seq<u32>,
    b: Seq<u32>,
    indices: Seq<u32>,
    offset: int,
    before: Seq<u32>,
    middle: Seq<u32>,
    after: Seq<u32>,
)
    requires
        is_assigned(la, offset, a, before, middle),
        is_assigned(lb, offset + la.len(), b, middle, after),
        is_partition(la, a),
        is_partition(lb, b),
        is_split(a, b, indices),
        all_below(indices, before.len() as int),
    ensures
        is_assigned(la + lb, offset, indices, before, after),
{
    let leaves = la + lb;
    assert forall|c: int, x: u32| 0 <= c < leaves.len() && #[trigger] leaves[c].contains(
        x,
    ) implies after[x as int] == offset + c by {
        if c < la.len() {
            assert(la[c].contains(x));
            assert(a.contains(x));
            assert(!b.contains(x));
            assert(indices.contains(x));
            assert(middle[x as int] == offset + c);
            assert(after[x as int] == middle[x as int]);
        } else {
            assert(lb[c - la.len()].contains(x));
        }
    }
    assert forall|x: u32| x < before.len() && !indices.contains(x) implies
        #[trigger] after[x as int] == before[x as int] by {
        assert(!a.contains(x) && !b.contains(x));
        assert(middle[x as int] == before[x as int]);
    }
}

/// Marks every point of `indices` with `cluster`.
fn mark_leaf(indices: &[u32], cluster: u32, assignments: &mut Vec<u32>)
    requires
        all_below(indices@, old(assignments)@.len() as int),
    ensures
        is_assigned(
            seq![indices@],
            cluster as int,
            indices@,
            old(assignments)@,
            final(assignments)@,
        ),
{
    let ghost before = assignments@;
    for t in 0..indices.len()
        invariant
            all_below(indices@, before.len() as int),
            assignments@.len() == before.len(),
            forall|j: int| 0 <= j < t ==> assignments@[#[trigger] indices@[j] as int] == cluster,
            forall|x: u32|
                x < before.len() && !indices@.contains(x) ==> #[trigger] assignments@[x as int]
                    == before[x as int],
    {
        let i: u32 = indices[t];
        proof {
            assert(indices@.contains(indices@[t as int]));
        }
        let ghost prev = assignments@;
        assignments[i as usize] = cluster;
        proof {
            assert forall|x: u32| x < before.len() && !indices@.contains(x) implies
                #[trigger] assignments@[x as int] == before[x as int] by {
                assert(x != i);
                assert(prev[x as int] == before[x as int]);
            }
            assert forall|j: int| 0 <= j < t + 1 implies assignments@[#[trigger] indices@[j] as int]
                == cluster by {
                if j < t {
                    assert(indices@.contains(indices@[j]));
                    assert(prev[indices@[j] as int] == cluster);
                }
            }
        }
    }
    proof {
        let leaves = seq![indices@];
        assert forall|c: int, x: u32| 0 <= c < leaves.len() && #[trigger] leaves[c].contains(
            x,
        ) implies assignments@[x as int] == cluster + c by {
            let j = choose|j: int| 0 <= j < indices@.len() && indices@[j] == x;
            assert(assignments@[indices@[j] as int] == cluster);
        }
    }
}

/// Points of the left part of a cut.
fn left_target(n: usize, k: usize) -> (r: usize)
    requires
        2 <= k <= n,
        n * k <= usize::MAX,
    ensures
        r == left_size(n as nat, k as nat),
        k / 2 <= r,
        r + (k - k / 2) <= n,
{
    let k_left: usize = k / 2;
    let k_right: usize = k - k_left;
    proof {
        assert(n * k_left <= n * k) by (nonlinear_arith)
            requires
                k_left <= k,
                n >= 0,
        ;
        lemma_left_size(n as nat, k as nat);
    }
    let share: usize = (n * k_left) / k;
    let at_least: usize = if share < k_left {
        k_left
    } else {
        share
    };
    let room: usize = n - k_right;
    if at_least <= room {
        at_least
    } else {
        room
    }
}

/// Cuts `indices` into `k` clusters, appends their centroids and writes the
/// number of its cluster, from `cluster_offset` on, for every point.
fn bisect_recurse<C, P, M, S, K>(
    geo: &Geometry<P, M, S, K>,
    indices: &[u32],
    k: usize,
    cluster_offset: u32,
    n_iters: usize,
    centroids: &mut Vec<C>,
    assignments: &mut Vec<u32>,
    seed: u64,
) where
    P: Fn(u32) -> C,
    M: Fn(&[u32]) -> C,
    S: Fn(u32, u32) -> u64,
    K: Fn(u32, &C, &C) -> u64,

    requires
        geo.wf::<C>(old(assignments)@.len() as int),
        0 < k <= indices@.len(),
        indices@.len() * k <= usize::MAX,
        cluster_offset + k <= u32::MAX,
        indices@.no_duplicates(),
        all_below(indices@, old(assignments)@.len() as int),
    ensures
        final(centroids)@ == old(centroids)@ + geo.spec::<C>().leaves(
            indices@,
            k as nat,
            n_iters as nat,
            seed,
        ).map_values(geo.spec::<C>().mean),
        is_assigned(
            geo.spec::<C>().leaves(indices@, k as nat, n_iters as nat, seed),
            cluster_offset as int,
            indices@,
            old(assignments)@,
            final(assignments)@,
        ),
    decreases k,
{
    let ghost spec = geo.spec::<C>();
    let ghost leaves = spec.leaves(indices@, k as nat, n_iters as nat, seed);
    let ghost before = assignments@;
    let ghost first = centroids@;
    let n: usize = indices.len();
    if k == 1 {
        let centroid: C = (geo.mean)(indices);
        proof {
            lemma_value_on_below(geo.mean, before.len() as int, indices, centroid);
        }
        centroids.push(centroid);
        mark_leaf(indices, cluster_offset, assignments);
        proof {
            assert(leaves =~= seq![indices@]);
            assert(centroids@ =~= first + leaves.map_values(spec.mean));
        }
        return;
    }
    let k_left: usize = k / 2;
    let k_right: usize = k - k_left;
    let target_left: usize = left_target(n, k);
    let sorted = balanced_bisect(
        geo,
        indices,
        target_left,
        n_iters,
        seed,
        Ghost(before.len() as int),
    );
    proof {
        lemma_cut_parts(
            spec,
            indices@,
            target_left as int,
            n_iters as nat,
            seed,
            before.len() as int,
        );
    }
    let (left, right) = sorted.as_slice().split_at(target_left);
    let ghost la = spec.leaves(left@, k_left as nat, n_iters as nat, part_seed(seed, 1));
    let ghost lb = spec.leaves(right@, k_right as nat, n_iters as nat, part_seed(seed, 2));
    proof {
        assert(left@ =~= sorted@.take(target_left as int));
        assert(right@ =~= sorted@.skip(target_left as int));
        assert(leaves == la + lb);
        law_bisection_partitions(
            spec,
            left@,
            k_left as nat,
            n_iters as nat,
            part_seed(seed, 1),
        );
        law_bisection_partitions(
            spec,
            right@,
            k_right as nat,
            n_iters as nat,
            part_seed(seed, 2),
        );
        assert(left@.len() * k_left <= n * k) by (nonlinear_arith)
            requires
                left@.len() <= n,
                k_left <= k,
        ;
        assert(right@.len() * k_right <= n * k) by (nonlinear_arith)
            requires
                right@.len() <= n,
                k_right <= k,
        ;
    }
    let mixed: u64 = seed.wrapping_mul(SEED_FACTOR);
    let seed_left: u64 = mixed.wrapping_add(1);
    let seed_right: u64 = mixed.wrapping_add(2);
    bisect_recurse(
        geo,
        left,
        k_left,
        cluster_offset,
        n_iters,
        centroids,
        assignments,
        seed_left,
    );
    let ghost middle = assignments@;
    bisect_recurse(
        geo,
        right,
        k_right,
        cluster_offset + k_left as u32,
        n_iters,
        centroids,
        assignments,
        seed_right,
    );
    proof {
        lemma_assigned_join(
            la,
            lb,
            left@,
            right@,
            indices@,
            cluster_offset as int,
            before,
            middle,
            assignments@,
        );
        assert(centroids@ =~= first + leaves.map_values(spec.mean));
    }
}

/// The parts of a cut split the points.
proof fn lemma_cut_parts<C>(
    spec: BisectSpec<C>,
    indices: Seq<u32>,
    left: int,
    iters: nat,
    seed: u64,
    bound: int,
)
    requires
        indices.no_duplicates(),
        0 <= left <= indices.len() <= usize::MAX,
        all_below(indices, bound),
    ensures
        ({
            let sorted = spec.cut(indices, left, iters, seed);
            let a = sorted.take(left);
            let b = sorted.skip(left);
            &&& sorted.len() == indices.len()
            &&& a.no_duplicates()
            &&& b.no_duplicates()
            &&& is_split(a, b, indices)
            &&& all_below(a, bound)
            &&& all_below(b, bound)
        }),
{
    let from = spec.first_point(indices, seed);
    let to = spec.farthest(indices, from, indices.len());
    lemma_refine(spec, indices, left, (spec.point)(from), (spec.point)(to), iters);
    let sorted = spec.cut(indices, left, iters, seed);
    lemma_parts(sorted, left);
    let a = sorted.take(left);
    let b = sorted.skip(left);
    assert forall|x: u32| #[trigger] indices.contains(x) <==> a.contains(x) || b.contains(x) by {
        assert(sorted.contains(x) <==> indices.contains(x));
    }
    assert forall|x: u32| #[trigger] a.contains(x) implies x < bound by {
        assert(sorted.contains(x));
        assert(indices.contains(x));
    }
    assert forall|x: u32| #[trigger] b.contains(x) implies x < bound by {
        assert(sorted.contains(x));
        assert(indices.contains(x));
    }
}

/// The numbers below `n`.
pub open spec fn first_points(n: nat) -> Seq<u32> {
    Seq::new(n, |i: int| i as u32)
}

/// Clusters `n` points into `k` balanced clusters. Gives the centroids, and for
/// every point the number of its cluster.
pub fn hierarchical_balanced_kmeans<C, P, M, S, K>(
    geo: &Geometry<P, M, S, K>,
    n: usize,
    k: usize,
    n_iters_per_bisect: usize,
    seed: u64,
) -> (r: (Vec<C>, Vec<u32>)) where
    P: Fn(u32) -> C,
    M: Fn(&[u32]) -> C,
    S: Fn(u32, u32) -> u64,
    K: Fn(u32, &C, &C) -> u64,

    requires
        geo.wf::<C>(n as int),
        0 < k <= n <= u32::MAX,
        n * k <= usize::MAX,
    ensures
        ({
            let leaves = geo.spec::<C>().leaves(
                first_points(n as nat),
                k as nat,
                n_iters_per_bisect as nat,
                seed,
            );
            &&& r.0@ == Seq::new(k as nat, |c: int| value_on(geo.mean, leaves[c]))
            &&& r.1@.len() == n
            &&& forall|x: u32, c: int|
                x < n && 0 <= c < k && #[trigger] leaves[c].contains(x) ==> r.1@[x as int] == c
            &&& forall|i: int|
                0 <= i < n ==> #[trigger] r.1@[i] < k && leaves[r.1@[i] as int].contains(i as u32)
        }),
{
    let ghost all = first_points(n as nat);
    let ghost spec = geo.spec::<C>();
    let ghost leaves = spec.leaves(all, k as nat, n_iters_per_bisect as nat, seed);
    let mut centroids: Vec<C> = Vec::new();
    let mut assignments: Vec<u32> = vec![0u32; n];
    let mut indices: Vec<u32> = Vec::new();
    for i in 0..n
        invariant
            n <= u32::MAX,
            indices@.len() == i,
            forall|j: int| 0 <= j < i ==> #[trigger] indices@[j] == j,
    {
        indices.push(i as u32);
    }
    proof {
        assert(indices@ =~= all);
        law_bisection_partitions(spec, all, k as nat, n_iters_per_bisect as nat, seed);
    }
    bisect_recurse(
        geo,
        &indices,
        k,
        0,
        n_iters_per_bisect,
        &mut centroids,
        &mut assignments,
        seed,
    );
    proof {
        assert(centroids@ =~= Seq::new(k as nat, |c: int| value_on(geo.mean, leaves[c])));
        assert forall|i: int| 0 <= i < n implies #[trigger] assignments@[i] < k && leaves[
            assignments@[i] as int].contains(i as u32) by {
            assert(all[i] == i as u32);
            assert(all.contains(i as u32));
            let c = choose|c: int| 0 <= c < k && #[trigger] leaves[c].contains(i as u32);
            assert(assignments@[(i as u32) as int] == 0 + c);
        }
    }
    (centroids, assignments)
}

/// One more refinement starts from the centroids of the parts that the
/// refinements before it make.
proof fn lemma_refine_last<C>(
    spec: BisectSpec<C>,
    indices: Seq<u32>,
    left: int,
    a: C,
    b: C,
    iters: nat,
)
    requires
        iters >= 1,
    ensures
        spec.refine(indices, left, a, b, iters + 1) == spec.refine(
            indices,
            left,
            (spec.mean)(spec.refine(indices, left, a, b, iters).take(left)),
            (spec.mean)(spec.refine(indices, left, a, b, iters).skip(left)),
            1,
        ),
    decreases iters,
{
    let sorted = reorder(indices, spec.keys(indices, a, b));
    let a1 = (spec.mean)(sorted.take(left));
    let b1 = (spec.mean)(sorted.skip(left));
    assert(spec.refine(indices, left, a, b, iters + 1) == spec.refine(
        indices,
        left,
        a1,
        b1,
        iters,
    ));
    if iters > 1 {
        assert(spec.refine(indices, left, a, b, iters) == spec.refine(
            indices,
            left,
            a1,
            b1,
            (iters - 1) as nat,
        ));
        lemma_refine_last(spec, indices, left, a1, b1, (iters - 1) as nat);
    }
}

proof fn lemma_refined_once<C>(
    spec: BisectSpec<C>,
    indices: Seq<u32>,
    left: int,
    a: C,
    b: C,
)
    requires
        indices.len() <= usize::MAX,
    ensures
        ({
            let sorted = spec.refine(indices, left, a, b, 1);
            &&& sorted.to_multiset() == indices.to_multiset()
            &&& forall|i: int, j: int|
                0 <= i < j < sorted.len() ==> (spec.key)(#[trigger] sorted[i], a, b) <= (spec.key)(
                    #[trigger] sorted[j],
                    a,
                    b,
                )
            &&& indices.no_duplicates() ==> forall|i: int, j: int|
                0 <= i < j < sorted.len() && (spec.key)(#[trigger] sorted[i], a, b) == (spec.key)(
                    #[trigger] sorted[j],
                    a,
                    b,
                ) ==> indices.index_of(sorted[i]) < indices.index_of(sorted[j])
        }),
{
    let keys = spec.keys(indices, a, b);
    law_ordering_keeps_elements(indices, keys);
    lemma_order_exists(keys);
    let order = order_of(keys);
    let sorted = spec.refine(indices, left, a, b, 1);
    assert(sorted =~= Seq::new(indices.len(), |t: int| indices[order[t] as int]));
    assert forall|i: int, j: int| 0 <= i < j < sorted.len() implies (spec.key)(
        #[trigger] sorted[i],
        a,
        b,
    ) <= (spec.key)(#[trigger] sorted[j], a, b) by {
        assert(keys[order[i] as int] <= keys[order[j] as int]);
    }
    if indices.no_duplicates() {
        assert forall|i: int, j: int|
            0 <= i < j < sorted.len() && (spec.key)(#[trigger] sorted[i], a, b) == (spec.key)(
                #[trigger] sorted[j],
                a,
                b,
            ) implies indices.index_of(sorted[i]) < indices.index_of(sorted[j]) by {
            assert(keys[order[i] as int] == keys[order[j] as int]);
            assert(order[i] < order[j]);
            let x = order[i] as int;
            let y = order[j] as int;
            assert(indices[x] == sorted[i] && indices[y] == sorted[j]);
            assert(indices.index_of(sorted[i]) == x);
            assert(indices.index_of(sorted[j]) == y);
        }
    }
}

/// A cut separates by distance: it keeps the points, and for the two centroids
/// of its last ordering the keys never fall along it, so that no point of the
/// left part has a larger key than a point of the right part. Points of one key
/// keep their order. The centroids are, in the first iteration, those of the
/// point that the cut starts from and of the farthest from it; in each further
/// one, the means of the two parts of the cut with one iteration less.
pub proof fn law_cut_separates<C>(
    spec: BisectSpec<C>,
    indices: Seq<u32>,
    left: int,
    iters: nat,
    seed: u64,
) -> (centroids: (C, C))
    requires
        iters >= 1,
        0 <= left <= indices.len() <= usize::MAX,
        indices.len() > 0,
    ensures
        spec.cut(indices, left, iters, seed).to_multiset() == indices.to_multiset(),
        forall|i: int, j: int|
            0 <= i < j < indices.len() ==> (spec.key)(
                #[trigger] spec.cut(indices, left, iters, seed)[i],
                centroids.0,
                centroids.1,
            ) <= (spec.key)(
                #[trigger] spec.cut(indices, left, iters, seed)[j],
                centroids.0,
                centroids.1,
            ),
        forall|x: u32, y: u32|
            spec.cut(indices, left, iters, seed).take(left).contains(x) && spec.cut(
                indices,
                left,
                iters,
                seed,
            ).skip(left).contains(y) ==> #[trigger] (spec.key)(x, centroids.0, centroids.1)
                <= #[trigger] (spec.key)(y, centroids.0, centroids.1),
        indices.no_duplicates() ==> forall|i: int, j: int|
            0 <= i < j < indices.len() && (spec.key)(
                #[trigger] spec.cut(indices, left, iters, seed)[i],
                centroids.0,
                centroids.1,
            ) == (spec.key)(
                #[trigger] spec.cut(indices, left, iters, seed)[j],
                centroids.0,
                centroids.1,
            ) ==> indices.index_of(spec.cut(indices, left, iters, seed)[i]) < indices.index_of(
                spec.cut(indices, left, iters, seed)[j],
            ),
        iters == 1 ==> {
            let from = spec.first_point(indices, seed);
            let to = spec.farthest(indices, from, indices.len());
            centroids == ((spec.point)(from), (spec.point)(to))
        },
        iters > 1 ==> {
            let before = spec.cut(indices, left, (iters - 1) as nat, seed);
            centroids == ((spec.mean)(before.take(left)), (spec.mean)(before.skip(left)))
        },
{
    let from = spec.first_point(indices, seed);
    let to = spec.farthest(indices, from, indices.len());
    let a = (spec.point)(from);
    let b = (spec.point)(to);
    let before = spec.cut(indices, left, (iters - 1) as nat, seed);
    let centroids = if iters == 1 {
        (a, b)
    } else {
        ((spec.mean)(before.take(left)), (spec.mean)(before.skip(left)))
    };
    if iters > 1 {
        lemma_refine_last(spec, indices, left, a, b, (iters - 1) as nat);
    }
    let sorted = spec.cut(indices, left, iters, seed);
    assert(sorted == spec.refine(indices, left, centroids.0, centroids.1, 1));
    lemma_refined_once(spec, indices, left, centroids.0, centroids.1);
    lemma_refine(spec, indices, left, a, b, iters);
    assert forall|x: u32, y: u32|
        sorted.take(left).contains(x) && sorted.skip(left).contains(y) implies #[trigger] (
    spec.key)(x, centroids.0, centroids.1) <= #[trigger] (spec.key)(
        y,
        centroids.0,
        centroids.1,
    ) by {
        let i = choose|i: int| 0 <= i < left && sorted.take(left)[i] == x;
        let j = choose|j: int| 0 <= j < indices.len() - left && sorted.skip(left)[j] == y;
        assert(sorted[i] == x);
        assert(sorted[j + left] == y);
    }
    centroids
}

/// The farthest of some points is one of them, and none is farther; of those as
/// far, it is the last.
pub proof fn law_farthest_is_farthest<C>(
    spec: BisectSpec<C>,
    indices: Seq<u32>,
    from: u32,
    n: nat,
) -> (at: int)
    requires
        0 < n <= indices.len(),
    ensures
        0 <= at < n,
        spec.farthest(indices, from, n) == indices[at],
        forall|i: int|
            0 <= i < n ==> (spec.spread)(from, #[trigger] indices[i]) <= (spec.spread)(
                from,
                spec.farthest(indices, from, n),
            ),
        forall|i: int|
            at < i < n ==> (spec.spread)(from, #[trigger] indices[i]) < (spec.spread)(
                from,
                spec.farthest(indices, from, n),
            ),
    decreases n,
{
    if n == 1 {
        0
    } else {
        let before = law_farthest_is_farthest(spec, indices, from, (n - 1) as nat);
        if (spec.spread)(from, indices[n - 1]) >= (spec.spread)(from, indices[before]) {
            n - 1
        } else {
            before
        }
    }
}

/// The first half of the clusters hold the points of the left part of the cut,
/// and the others those of the right part.
pub proof fn law_clusters_keep_to_their_part<C>(
    spec: BisectSpec<C>,
    indices: Seq<u32>,
    k: nat,
    iters: nat,
    seed: u64,
    c: int,
    x: u32,
)
    requires
        2 <= k <= indices.len() <= usize::MAX,
        indices.no_duplicates(),
        0 <= c < k,
        spec.leaves(indices, k, iters, seed)[c].contains(x),
    ensures
        c < k / 2 ==> spec.cut(
            indices,
            (indices.len() * (k / 2) / k) as int,
            iters,
            seed,
        ).take((indices.len() * (k / 2) / k) as int).contains(x),
        c >= k / 2 ==> spec.cut(
            indices,
            (indices.len() * (k / 2) / k) as int,
            iters,
            seed,
        ).skip((indices.len() * (k / 2) / k) as int).contains(x),
{
    let n = indices.len();
    let left = left_size(n, k) as int;
    lemma_left_size(n, k);
    let from = spec.first_point(indices, seed);
    let to = spec.farthest(indices, from, n);
    lemma_refine(spec, indices, left, (spec.point)(from), (spec.point)(to), iters);
    let sorted = spec.cut(indices, left, iters, seed);
    lemma_parts(sorted, left);
    let a = sorted.take(left);
    let b = sorted.skip(left);
    let kl = (k / 2) as nat;
    let kr = (k - k / 2) as nat;
    law_bisection_partitions(spec, a, kl, iters, part_seed(seed, 1));
    law_bisection_partitions(spec, b, kr, iters, part_seed(seed, 2));
    let la = spec.leaves(a, kl, iters, part_seed(seed, 1));
    let lb = spec.leaves(b, kr, iters, part_seed(seed, 2));
    let all = spec.leaves(indices, k, iters, seed);
    assert(all =~= la + lb);
    if c < kl {
        assert(la[c].contains(x));
    } else {
        assert(lb[c - kl].contains(x));
    }
}

} // verus!
