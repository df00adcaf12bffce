//! Sizes of clusters and what they add up to.
use vstd::prelude::*;
use crate::arith::{lemma_places_step, lemma_total_step, places, total};
use crate::decimal::{
    decimal, digits, format_hundredths, format_tenths, hundredths, round_div, rounded_quotient,
    tenths,
};
use crate::ranking::{
    key_before, law_ordering_keeps_elements, lemma_order_exists, lemma_order_of, order_of,
    stable_order,
};
use crate::significand::{
    lemma_round_nearest_error, round_nearest, round_significand, DOUBLE_LIMIT,
};

verus! {

/// How many of the first `n` points belong to cluster `c`.
pub open spec fn members(assignments: Seq<u32>, n: nat, c: int) -> nat
    decreases n,
{
    if n == 0 {
        0
    } else {
        members(assignments, (n - 1) as nat, c) + if assignments[n - 1] == c {
            1nat
        } else {
            0
        }
    }
}

pub proof fn lemma_members_bound(assignments: Seq<u32>, n: nat, c: int)
    ensures
        members(assignments, n, c) <= n,
    decreases n,
{
    if n > 0 {
        lemma_members_bound(assignments, (n - 1) as nat, c);
    }
}

/// The sizes of the clusters that the first `n_samples` points make up.
pub fn cluster_sizes(assignments: &[u32], n_samples: usize, n_clusters: usize) -> (sizes: Vec<u32>)
    requires
        assignments@.len() <= u32::MAX || n_samples <= u32::MAX,
        forall|i: int|
            0 <= i < assignments@.len() && i < n_samples ==> #[trigger] assignments@[i]
                < n_clusters,
    ensures
        sizes@.len() == n_clusters,
        forall|c: int|
            0 <= c < n_clusters ==> #[trigger] sizes@[c] == members(
                assignments@,
                if n_samples <= assignments@.len() {
                    n_samples as nat
                } else {
                    assignments@.len()
                },
                c,
            ),
{
    let n: usize = if n_samples <= assignments.len() {
        n_samples
    } else {
        assignments.len()
    };
    let mut sizes: Vec<u32> = vec![0u32; n_clusters];
    for i in 0..n
        invariant
            n <= u32::MAX,
            n <= assignments@.len(),
            n <= n_samples,
            forall|i: int|
                0 <= i < assignments@.len() && i < n_samples ==> #[trigger] assignments@[i]
                    < n_clusters,
            sizes@.len() == n_clusters,
            forall|c: int|
                0 <= c < n_clusters ==> #[trigger] sizes@[c] == members(
                    assignments@,
                    i as nat,
                    c,
                ),
    {
        let c: usize = assignments[i] as usize;
        proof {
            lemma_members_bound(assignments@, i as nat, c as int);
        }
        sizes[c] = sizes[c] + 1;
    }
    sizes
}

/// Sum of the first `n` sizes.
pub open spec fn sum_of(sizes: Seq<u32>, n: nat) -> nat
    decreases n,
{
    if n == 0 {
        0
    } else {
        sum_of(sizes, (n - 1) as nat) + sizes[n - 1] as nat
    }
}

/// Sum of the squares of the first `n` sizes.
pub open spec fn squares_of(sizes: Seq<u32>, n: nat) -> nat
    decreases n,
{
    if n == 0 {
        0
    } else {
        squares_of(sizes, (n - 1) as nat) + (sizes[n - 1] * sizes[n - 1]) as nat
    }
}

/// How many of the first `n` sizes are not zero.
pub open spec fn nonempty_of(sizes: Seq<u32>, n: nat) -> nat
    decreases n,
{
    if n == 0 {
        0
    } else {
        nonempty_of(sizes, (n - 1) as nat) + if sizes[n - 1] > 0 {
            1nat
        } else {
            0
        }
    }
}

/// Integer totals of cluster sizes, from which their mean and deviation follow.
pub struct BalanceSums {
    pub total: u64,
    pub squares: u128,
    pub nonempty: usize,
    pub min: u32,
    pub max: u32,
}

/// `m` is the least of the first `n` sizes, or zero where there is none.
pub open spec fn is_least(sizes: Seq<u32>, n: int, m: u32) -> bool {
    &&& n == 0 ==> m == 0
    &&& n > 0 ==> exists|i: int| 0 <= i < n && sizes[i] == m
    &&& forall|i: int| 0 <= i < n ==> m <= #[trigger] sizes[i]
}

/// `m` is the largest of the first `n` sizes, or zero where there is none.
pub open spec fn is_largest(sizes: Seq<u32>, n: int, m: u32) -> bool {
    &&& n == 0 ==> m == 0
    &&& n > 0 ==> exists|i: int| 0 <= i < n && sizes[i] == m
    &&& forall|i: int| 0 <= i < n ==> #[trigger] sizes[i] <= m
}

/// The totals of cluster sizes.
pub fn balance_from_sizes(sizes: &[u32]) -> (r: BalanceSums)
    requires
        sizes@.len() <= u32::MAX,
    ensures
        r.total == sum_of(sizes@, sizes@.len()),
        r.squares == squares_of(sizes@, sizes@.len()),
        r.nonempty == nonempty_of(sizes@, sizes@.len()),
        is_least(sizes@, sizes@.len() as int, r.min),
        is_largest(sizes@, sizes@.len() as int, r.max),
{
    let mut total: u64 = 0;
    let mut squares: u128 = 0;
    let mut nonempty: usize = 0;
    let mut min: u32 = 0;
    let mut max: u32 = 0;
    for i in 0..sizes.len()
        invariant
            sizes@.len() <= u32::MAX,
            total == sum_of(sizes@, i as nat),
            squares == squares_of(sizes@, i as nat),
            nonempty == nonempty_of(sizes@, i as nat),
            nonempty <= i,
            total <= i * 0xffff_ffff,
            squares <= i * 0xffff_fffe_0000_0001,
            is_least(sizes@, i as int, min),
            is_largest(sizes@, i as int, max),
    {
        let s: u32 = sizes[i];
        proof {
            assert(0 <= s * s <= 0xffff_fffe_0000_0001) by (nonlinear_arith)
                requires
                    0 <= s <= 0xffff_ffff,
            ;
            let i1 = (i + 1) as int;
            if i > 0 {
                let a = choose|a: int| 0 <= a < i && sizes@[a] == min;
                assert(0 <= a < i1 && sizes@[a] == min);
                let b = choose|b: int| 0 <= b < i && sizes@[b] == max;
                assert(0 <= b < i1 && sizes@[b] == max);
            }
            assert(0 <= i < i1 && sizes@[i as int] == s);
        }
        total = total + s as u64;
        squares = squares + (s as u128) * (s as u128);
        if s > 0 {
            nonempty = nonempty + 1;
        }
        if i == 0 || s < min {
            min = s;
        }
        if i == 0 || s > max {
            max = s;
        }
    }
    BalanceSums { total, squares, nonempty, min, max }
}

/// The sizes of clusters add up to the number of points.
pub proof fn law_sizes_add_up(assignments: Seq<u32>, n: nat, sizes: Seq<u32>)
    requires
        n <= assignments.len(),
        forall|i: int| 0 <= i < n ==> #[trigger] assignments[i] < sizes.len(),
        forall|c: int| 0 <= c < sizes.len() ==> #[trigger] sizes[c] == members(assignments, n, c),
    ensures
        sum_of(sizes, sizes.len()) == n,
{
    let counts = |c: int| members(assignments, n, c);
    lemma_sum_of_counts(sizes, counts, sizes.len());
    lemma_count_total(assignments, n, sizes.len());
}

/// Sum of the first `k` values of a function.
pub open spec fn sum_to(f: spec_fn(int) -> nat, k: nat) -> nat
    decreases k,
{
    if k == 0 {
        0
    } else {
        sum_to(f, (k - 1) as nat) + f(k - 1)
    }
}

proof fn lemma_sum_of_counts(sizes: Seq<u32>, f: spec_fn(int) -> nat, k: nat)
    requires
        k <= sizes.len(),
        forall|c: int| 0 <= c < sizes.len() ==> #[trigger] sizes[c] == f(c),
    ensures
        sum_of(sizes, k) == sum_to(f, k),
    decreases k,
{
    if k > 0 {
        lemma_sum_of_counts(sizes, f, (k - 1) as nat);
        assert(sizes[k - 1] == f(k - 1));
    }
}

proof fn lemma_sum_to_step(
    f: spec_fn(int) -> nat,
    g: spec_fn(int) -> nat,
    at: int,
    k: nat,
)
    requires
        forall|c: int| 0 <= c < k ==> #[trigger] g(c) == f(c) + if c == at {
            1nat
        } else {
            0
        },
        0 <= at,
    ensures
        sum_to(g, k) == sum_to(f, k) + if at < k {
            1nat
        } else {
            0
        },
    decreases k,
{
    if k > 0 {
        lemma_sum_to_step(f, g, at, (k - 1) as nat);
        assert(g(k - 1) == f(k - 1) + if k - 1 == at {
            1nat
        } else {
            0
        });
    }
}

proof fn lemma_sum_to_zero(f: spec_fn(int) -> nat, k: nat)
    requires
        forall|c: int| 0 <= c < k ==> #[trigger] f(c) == 0,
    ensures
        sum_to(f, k) == 0,
    decreases k,
{
    if k > 0 {
        lemma_sum_to_zero(f, (k - 1) as nat);
        assert(f(k - 1) == 0);
    }
}

proof fn lemma_count_total(assignments: Seq<u32>, n: nat, k: nat)
    requires
        n <= assignments.len(),
        forall|i: int| 0 <= i < n ==> #[trigger] assignments[i] < k,
    ensures
        sum_to(|c: int| members(assignments, n, c), k) == n,
    decreases n,
{
    let g = |c: int| members(assignments, n, c);
    if n == 0 {
        lemma_sum_to_zero(g, k);
    } else {
        let f = |c: int| members(assignments, (n - 1) as nat, c);
        lemma_count_total(assignments, (n - 1) as nat, k);
        let at = assignments[n - 1] as int;
        lemma_sum_to_step(f, g, at, k);
    }
}

/// The sizes as keys to order them by.
pub open spec fn size_keys(sizes: Seq<u32>) -> Seq<u64> {
    Seq::new(sizes.len(), |i: int| sizes[i] as u64)
}

/// The sizes, rising.
pub open spec fn sorted_sizes(sizes: Seq<u32>) -> Seq<u32> {
    Seq::new(sizes.len(), |i: int| sizes[order_of(size_keys(sizes))[i] as int])
}

/// Twice the median of sorted sizes: an even number of sizes has two in the
/// middle.
pub open spec fn doubled_median(sorted: Seq<u32>) -> int {
    let mid = sorted.len() as int / 2;
    if sorted.len() % 2 == 1 {
        2 * sorted[mid]
    } else {
        sorted[mid - 1] + sorted[mid]
    }
}

/// The least size, twice the median, and the largest size; zeros where there
/// is no cluster.
pub fn min_median_max(sizes: &[u32]) -> (r: (u32, u64, u32))
    ensures
        sizes@.len() == 0 ==> r == (0u32, 0u64, 0u32),
        sizes@.len() > 0 ==> {
            &&& is_least(sizes@, sizes@.len() as int, r.0)
            &&& r.1 == doubled_median(sorted_sizes(sizes@))
            &&& is_largest(sizes@, sizes@.len() as int, r.2)
        },
{
    let n: usize = sizes.len();
    if n == 0 {
        return (0, 0, 0);
    }
    let mut keys: Vec<u64> = Vec::new();
    for i in 0..n
        invariant
            n == sizes@.len(),
            keys@.len() == i,
            forall|j: int| 0 <= j < i ==> #[trigger] keys@[j] == sizes@[j],
    {
        keys.push(sizes[i] as u64);
    }
    let order = stable_order(&keys);
    proof {
        assert(keys@ =~= size_keys(sizes@));
        lemma_order_of(keys@, order@);
        let sorted = sorted_sizes(sizes@);
        assert forall|i: int| 0 <= i < n implies sizes@[order@[0] as int] <= #[trigger] sizes@[i]
            && sizes@[i] <= sizes@[order@[n - 1] as int] by {
            crate::ranking::lemma_order_is_onto(keys@, order@, i);
            let t = choose|t: int| 0 <= t < order@.len() && #[trigger] order@[t] == i;
            if t > 0 {
                assert(key_before(keys@, order@[0] as int, order@[t] as int));
            }
            if t < n - 1 {
                assert(key_before(keys@, order@[t] as int, order@[n - 1] as int));
            }
            assert(keys@[i] == sizes@[i]);
            assert(keys@[order@[0] as int] == sizes@[order@[0] as int]);
            assert(keys@[order@[n - 1] as int] == sizes@[order@[n - 1] as int]);
        }
    }
    let mid: usize = n / 2;
    let min: u32 = sizes[order[0]];
    let max: u32 = sizes[order[n - 1]];
    let doubled: u64 = if n % 2 == 1 {
        2 * (sizes[order[mid]] as u64)
    } else {
        sizes[order[mid - 1]] as u64 + sizes[order[mid]] as u64
    };
    (min, doubled, max)
}

/// A number of bytes in words: with two decimals in units of 2^30, with one in
/// units of 2^20 or 2^10, or as it is below 1024. The number is rounded to what
/// double precision holds, and the quotient to its decimals, ties to even.
pub open spec fn bytes_in_words(bytes: u64) -> Seq<char> {
    let x = round_nearest(bytes as nat, DOUBLE_LIMIT as nat);
    if bytes >= 0x4000_0000 {
        hundredths(round_div(100 * x, 0x4000_0000)) + " GB"@
    } else if bytes >= 0x10_0000 {
        tenths(round_div(10 * x, 0x10_0000)) + " MB"@
    } else if bytes >= 1024 {
        tenths(round_div(10 * x, 1024)) + " KB"@
    } else {
        digits(bytes as nat) + " B"@
    }
}

pub fn format_bytes(bytes: u64) -> (r: String)
    ensures
        r@ == bytes_in_words(bytes),
{
    proof {
        lemma_round_nearest_error(bytes as nat, DOUBLE_LIMIT as nat);
    }
    if bytes < 1024 {
        return decimal(bytes).concat(" B");
    }
    let x: u128 = round_significand(bytes as u128, DOUBLE_LIMIT);
    if bytes >= 0x4000_0000 {
        let q: u128 = rounded_quotient(100 * x, 0x4000_0000);
        proof {
            assert(q <= 0xffff_ffff_ffff_ffff) by {
                assert(100 * x / 0x4000_0000 <= 0x1000_0000_0000_0000);
            }
        }
        format_hundredths(q as u64).concat(" GB")
    } else if bytes >= 0x10_0000 {
        format_tenths(rounded_quotient(10 * x, 0x10_0000) as u64).concat(" MB")
    } else {
        format_tenths(rounded_quotient(10 * x, 1024) as u64).concat(" KB")
    }
}

/// The size of a cluster is the number of points that are assigned to it.
pub proof fn law_members_are_counted(assignments: Seq<u32>, n: nat, c: int)
    ensures
        members(assignments, n, c) == places(n, |i: int| assignments[i] == c).len(),
    decreases n,
{
    let p = |i: int| assignments[i] == c;
    if n > 0 {
        law_members_are_counted(assignments, (n - 1) as nat, c);
        lemma_places_step((n - 1) as nat, p);
    } else {
        lemma_places_step(0, p);
    }
}

/// The totals of cluster sizes: their sum, the sum of their squares, and how
/// many are not zero.
pub proof fn law_totals_of_sizes(sizes: Seq<u32>, n: nat)
    ensures
        sum_of(sizes, n) == total(n, |i: int| sizes[i] as int),
        squares_of(sizes, n) == total(n, |i: int| sizes[i] * sizes[i]),
        nonempty_of(sizes, n) == places(n, |i: int| sizes[i] != 0).len(),
    decreases n,
{
    let f = |i: int| sizes[i] as int;
    let g = |i: int| sizes[i] * sizes[i];
    let p = |i: int| sizes[i] != 0;
    if n > 0 {
        let m = (n - 1) as nat;
        law_totals_of_sizes(sizes, m);
        lemma_total_step(m, f);
        lemma_total_step(m, g);
        lemma_places_step(m, p);
        assert(sizes[n - 1] * sizes[n - 1] >= 0) by (nonlinear_arith);
    } else {
        lemma_total_step(0, f);
        lemma_total_step(0, g);
        lemma_places_step(0, p);
    }
}

/// Half of the sizes are no larger than the median and half are no smaller:
/// twice the median lies between twice those at the middle.
pub proof fn law_median_is_in_the_middle(sizes: Seq<u32>)
    requires
        0 < sizes.len() <= usize::MAX,
    ensures
        ({
            let sorted = sorted_sizes(sizes);
            let n = sizes.len() as int;
            &&& sorted.to_multiset() == sizes.to_multiset()
            &&& forall|i: int, j: int|
                0 <= i < j < n ==> #[trigger] sorted[i] <= #[trigger] sorted[j]
            &&& forall|i: int| 0 <= i < n && 2 * i <= n - 1 ==> 2 * #[trigger] sorted[i]
                <= doubled_median(sorted)
            &&& forall|i: int| 0 <= i < n && 2 * i >= n - 1 ==> doubled_median(sorted) <= 2
                * #[trigger] sorted[i]
            &&& n % 2 == 1 ==> doubled_median(sorted) == 2 * sorted[n / 2]
            &&& n % 2 == 0 ==> doubled_median(sorted) == sorted[n / 2 - 1] + sorted[n / 2]
        }),
{
    let keys = size_keys(sizes);
    lemma_order_exists(keys);
    let order = order_of(keys);
    let sorted = sorted_sizes(sizes);
    let n = sizes.len() as int;
    assert forall|i: int, j: int| 0 <= i < j < n implies #[trigger] sorted[i]
        <= #[trigger] sorted[j] by {
        assert(key_before(keys, order[i] as int, order[j] as int));
    }
    law_ordering_keeps_elements(sizes, keys);
    assert(sorted =~= Seq::new(sizes.len(), |t: int| sizes[order[t] as int]));
}

} // verus!
