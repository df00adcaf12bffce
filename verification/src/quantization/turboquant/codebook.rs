//! Scalar codebooks: reconstruction levels and the boundaries between them.
use vstd::prelude::*;
use crate::arith::{lemma_places, lemma_places_step, places};

verus! {

/// A scalar codebook. Level `i` is used for the values between boundary
/// `i - 1` and boundary `i`. Boundaries are kept as integer keys that are
/// ordered as the values they stand for; levels are of any type.
#[derive(Debug, Clone)]
pub struct Codebook<T> {
    pub centroids: Vec<T>,
    pub boundaries: Vec<i32>,
    pub bit_width: u8,
}

/// How many of the first `n` boundaries are below `value`.
pub open spec fn count_below(boundaries: Seq<i32>, n: nat, value: i32) -> nat
    decreases n,
{
    if n == 0 {
        0
    } else {
        count_below(boundaries, (n - 1) as nat, value) + if boundaries[n - 1] < value {
            1nat
        } else {
            0
        }
    }
}

pub open spec fn nondecreasing(s: Seq<i32>) -> bool {
    forall|i: int, j: int| 0 <= i <= j < s.len() ==> #[trigger] s[i] <= #[trigger] s[j]
}

proof fn lemma_count_below_split(s: Seq<i32>, n: nat, at: nat, value: i32)
    requires
        at <= n <= s.len(),
        nondecreasing(s),
        at > 0 ==> s[at - 1] < value,
        at < s.len() ==> s[at as int] >= value,
    ensures
        count_below(s, n, value) == at,
    decreases n,
{
    if n > at {
        lemma_count_below_split(s, (n - 1) as nat, at, value);
        assert(s[n - 1] >= s[at as int]);
    } else if n > 0 {
        lemma_count_below_all(s, n, value);
    }
}

proof fn lemma_count_below_all(s: Seq<i32>, n: nat, value: i32)
    requires
        n <= s.len(),
        nondecreasing(s),
        n > 0 ==> s[n - 1] < value,
    ensures
        count_below(s, n, value) == n,
    decreases n,
{
    if n > 1 {
        assert(s[n - 2] <= s[n - 1]);
        lemma_count_below_all(s, (n - 1) as nat, value);
    } else if n == 1 {
        assert(count_below(s, 0, value) == 0);
    }
}

impl<T: Copy> Codebook<T> {
    /// There is a level on each side of every boundary, and the boundaries
    /// rise.
    pub open spec fn wf(self) -> bool {
        &&& 0 < self.centroids@.len() <= 256
        &&& self.boundaries@.len() == self.centroids@.len() - 1
        &&& nondecreasing(self.boundaries@)
    }

    pub fn num_levels(&self) -> (r: usize)
        ensures
            r == self.centroids@.len(),
    {
        self.centroids.len()
    }

    /// The level for a value, given by its key: as many as there are
    /// boundaries below the value. `None` stands for a value without order and
    /// gets level zero.
    pub fn quantize_scalar(&self, value: Option<i32>) -> (r: u8)
        requires
            self.wf(),
        ensures
            value is None ==> r == 0,
            value matches Some(v) ==> r == count_below(
                self.boundaries@,
                self.boundaries@.len(),
                v,
            ),
            value matches Some(v) ==> (r > 0 ==> self.boundaries@[r - 1] < v) && (r
                < self.boundaries@.len() ==> v <= self.boundaries@[r as int]),
            r < self.centroids@.len(),
    {
        let v: i32 = match value {
            None => {
                return 0;
            },
            Some(v) => v,
        };
        let mut lo: usize = 0;
        let mut hi: usize = self.boundaries.len();
        while lo < hi
            invariant
                self.wf(),
                lo <= hi <= self.boundaries@.len(),
                lo > 0 ==> self.boundaries@[lo - 1] < v,
                hi < self.boundaries@.len() ==> v <= self.boundaries@[hi as int],
            decreases hi - lo,
        {
            let mid: usize = lo + (hi - lo) / 2;
            if self.boundaries[mid] < v {
                lo = mid + 1;
            } else {
                hi = mid;
            }
        }
        proof {
            lemma_count_below_split(self.boundaries@, self.boundaries@.len(), lo as nat, v);
        }
        lo as u8
    }

    /// The value of a level.
    pub fn dequantize_scalar(&self, index: u8) -> (r: T)
        requires
            index < self.centroids@.len(),
        ensures
            r == self.centroids@[index as int],
    {
        self.centroids[index as usize]
    }
}

/// Quantizing is monotone: a larger value never gets a smaller level.
pub proof fn law_quantize_is_monotone(boundaries: Seq<i32>, n: nat, a: i32, b: i32)
    requires
        a <= b,
        n <= boundaries.len(),
    ensures
        count_below(boundaries, n, a) <= count_below(boundaries, n, b),
    decreases n,
{
    if n > 0 {
        law_quantize_is_monotone(boundaries, (n - 1) as nat, a, b);
    }
}

/// The level of a value lies between its boundaries: all boundaries before it
/// are below the value, and none from it on.
pub proof fn law_level_is_between_its_boundaries(boundaries: Seq<i32>, v: i32)
    requires
        forall|i: int, j: int|
            0 <= i <= j < boundaries.len() ==> #[trigger] boundaries[i]
                <= #[trigger] boundaries[j],
    ensures
        count_below(boundaries, boundaries.len(), v) <= boundaries.len(),
        forall|i: int|
            0 <= i < boundaries.len() ==> (#[trigger] boundaries[i] < v <==> i < count_below(
                boundaries,
                boundaries.len(),
                v,
            )),
{
    law_level_counts_boundaries(boundaries, boundaries.len(), v);
    let p = |i: int| boundaries[i] < v;
    let n = boundaries.len();
    lemma_places(n, p);
    let below = places(n, p);
    let r = below.len() as int;
    assert forall|i: int| 0 <= i < n implies (#[trigger] boundaries[i] < v <==> i < r) by {
        if boundaries[i] < v {
            assert forall|t: int| 0 <= t <= i implies below.contains(t) by {
                assert(boundaries[t] <= boundaries[i]);
                assert(p(t));
            }
            lemma_first_places(below, i);
        } else if i < r {
            // The numbers before `i` alone cannot fill more than `i` places.
            let t = below[i];
            assert(t >= i) by {
                lemma_places_rise(below, i);
            }
            assert(p(t));
            assert(boundaries[i] <= boundaries[t]);
        }
    }
}

/// A rising list that starts at zero or above has at least `i` at place `i`.
proof fn lemma_places_rise(list: Seq<int>, i: int)
    requires
        0 <= i < list.len(),
        forall|t: int| 0 <= t < list.len() ==> 0 <= #[trigger] list[t],
        forall|s: int, t: int| 0 <= s < t < list.len() ==> #[trigger] list[s] < #[trigger] list[t],
    ensures
        list[i] >= i,
    decreases i,
{
    if i > 0 {
        lemma_places_rise(list, i - 1);
        assert(list[i - 1] < list[i]);
    }
}

/// A rising list of numbers that holds all up to `i` is longer than `i`.
proof fn lemma_first_places(list: Seq<int>, i: int)
    requires
        0 <= i,
        forall|t: int| 0 <= t < list.len() ==> 0 <= #[trigger] list[t],
        forall|s: int, t: int| 0 <= s < t < list.len() ==> #[trigger] list[s] < #[trigger] list[t],
        forall|t: int| 0 <= t <= i ==> list.contains(t),
    ensures
        i < list.len(),
    decreases i,
{
    let at = choose|at: int| 0 <= at < list.len() && list[at] == i;
    assert(list.contains(i));
    if i > 0 {
        lemma_first_places(list, i - 1);
        if list.len() == i {
            // All places hold numbers below `i`, by counting down from the last.
            assert(list.contains(i));
            lemma_tight(list, i - 1, i);
        }
    }
}

/// In a rising list of `n` numbers that holds all numbers below `n`, place `t`
/// holds `t`.
proof fn lemma_tight(list: Seq<int>, t: int, n: int)
    requires
        0 <= t < n,
        list.len() == n,
        forall|t: int| 0 <= t < list.len() ==> 0 <= #[trigger] list[t],
        forall|s: int, t: int| 0 <= s < t < list.len() ==> #[trigger] list[s] < #[trigger] list[t],
        forall|t: int| 0 <= t < n ==> list.contains(t),
    ensures
        forall|s: int| 0 <= s <= t ==> #[trigger] list[s] == s,
    decreases t,
{
    if t > 0 {
        lemma_tight(list, t - 1, n);
    }
    assert(list.contains(t));
    let at = choose|at: int| 0 <= at < list.len() && list[at] == t;
    if at < t {
        assert(list[at] == at);
    } else if at > t {
        lemma_places_rise(list, t);
        assert(list[t] < list[at]);
    }
}

/// The level of a value is the number of boundaries below it.
pub proof fn law_level_counts_boundaries(boundaries: Seq<i32>, n: nat, v: i32)
    ensures
        count_below(boundaries, n, v) == places(n, |i: int| boundaries[i] < v).len(),
    decreases n,
{
    let p = |i: int| boundaries[i] < v;
    if n > 0 {
        law_level_counts_boundaries(boundaries, (n - 1) as nat, v);
        lemma_places_step((n - 1) as nat, p);
    } else {
        lemma_places_step(0, p);
    }
}

} // verus!
