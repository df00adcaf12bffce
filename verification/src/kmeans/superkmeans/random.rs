//! Random choices of a clustering, taken from the `rand` crate.
use vstd::prelude::*;
use rand::rngs::StdRng;
use rand::seq::SliceRandom;
use rand::{Rng, SeedableRng};

verus! {

/// `rand::rngs::StdRng`, a generator whose state is not looked into.
#[verifier::external_type_specification]
#[verifier::external_body]
pub struct ExStdRng(StdRng);

/// The order in which shuffling with a generator seeded with `seed` leaves
/// `list`.
pub uninterp spec fn shuffled(list: Seq<usize>, seed: u64) -> Seq<usize>;

/// Calls `rand::seq::SliceRandom::shuffle` on `list`, with a generator from
/// `StdRng::seed_from_u64(seed)`. Shuffling swaps elements, so the list keeps
/// what it holds, each as often as before; in which order depends on the list
/// and the seed alone, and is left to `shuffled`.
#[verifier::external_body]
pub(crate) fn shuffle(list: &mut Vec<usize>, seed: u64)
    ensures
        final(list)@ == shuffled(old(list)@, seed),
        final(list)@.len() == old(list)@.len(),
        final(list)@.to_multiset() == old(list)@.to_multiset(),
{
    let mut rng = StdRng::seed_from_u64(seed);
    list.shuffle(&mut rng);
}

/// Calls `StdRng::seed_from_u64`. Nothing is claimed of the generator here;
/// what is drawn from it is `drawn`.
#[verifier::external_body]
fn seeded(seed: u64) -> (rng: StdRng)
{
    StdRng::seed_from_u64(seed)
}

/// The number that comes after `t` others when numbers from zero up to `bound`
/// are drawn from a generator seeded with `seed`.
pub uninterp spec fn drawn(seed: u64, bound: u32, t: nat) -> u32;

/// A generator from which numbers below one bound are drawn.
pub(crate) struct Draws {
    rng: StdRng,
    bound: u32,
    seed: Ghost<u64>,
    taken: Ghost<nat>,
}

impl Draws {
    pub(crate) closed spec fn seed(self) -> u64 {
        self.seed@
    }

    pub(crate) closed spec fn bound(self) -> u32 {
        self.bound
    }

    /// How many numbers have been drawn.
    pub(crate) closed spec fn taken(self) -> nat {
        self.taken@
    }

    /// A new generator, from which nothing has been drawn.
    pub(crate) fn new(seed: u64, bound: u32) -> (r: Draws)
        ensures
            r.seed() == seed,
            r.bound() == bound,
            r.taken() == 0,
    {
        Draws { rng: seeded(seed), bound, seed: Ghost(seed), taken: Ghost(0) }
    }

    /// Calls `rand::Rng::gen_range` for a number from zero up to the bound,
    /// without the bound; the range must not be empty. The number depends on
    /// the seed, the bound and how many numbers have been drawn, and is left
    /// to `drawn`.
    #[verifier::external_body]
    pub(crate) fn next(&mut self) -> (r: u32)
        requires
            old(self).bound() > 0,
        ensures
            r == drawn(old(self).seed(), old(self).bound(), old(self).taken()),
            r < old(self).bound(),
            final(self).seed() == old(self).seed(),
            final(self).bound() == old(self).bound(),
            final(self).taken() == old(self).taken() + 1,
    {
        self.rng.gen_range(0..self.bound)
    }
}

/// Calls `rayon::current_num_threads`. The number depends on the machine and
/// its settings; nothing is claimed of it.
#[verifier::external_body]
pub(crate) fn current_num_threads() -> (r: usize)
{
    rayon::current_num_threads()
}

/// The numbers below `n`.
pub open spec fn all_below(n: nat) -> Seq<usize> {
    Seq::new(n, |i: int| i as usize)
}

/// `order` lists the numbers below `n`, each once.
pub open spec fn is_permutation(order: Seq<usize>, n: nat) -> bool {
    &&& order.len() == n
    &&& order.no_duplicates()
    &&& forall|i: int| 0 <= i < n ==> #[trigger] order[i] < n
    &&& forall|x: usize| x < n ==> #[trigger] order.contains(x)
}

/// A shuffled list of the numbers below `n` is a permutation of them.
pub proof fn lemma_shuffled_is_permutation(order: Seq<usize>, n: nat)
    requires
        n <= usize::MAX,
        order.len() == n,
        order.to_multiset() == all_below(n).to_multiset(),
    ensures
        is_permutation(order, n),
{
    broadcast use vstd::seq_lib::group_to_multiset_ensures;

    let all = all_below(n);
    assert(all.no_duplicates());
    all.lemma_multiset_has_no_duplicates();
    order.lemma_multiset_has_no_duplicates_conv();
    assert forall|i: int| 0 <= i < n implies #[trigger] order[i] < n by {
        assert(order.contains(order[i]));
        assert(order.to_multiset().contains(order[i]));
        assert(all.contains(order[i]));
    }
    assert forall|x: usize| x < n implies #[trigger] order.contains(x) by {
        assert(all[x as int] == x);
        assert(all.contains(x));
        assert(all.to_multiset().contains(x));
    }
}

/// The numbers below `n`, shuffled with `seed`.
pub fn shuffled_indices(n: usize, seed: u64) -> (order: Vec<usize>)
    ensures
        order@ == shuffled(all_below(n as nat), seed),
        is_permutation(order@, n as nat),
{
    let mut order: Vec<usize> = Vec::new();
    for i in 0..n
        invariant
            order@.len() == i,
            forall|j: int| 0 <= j < i ==> #[trigger] order@[j] == j,
    {
        order.push(i);
    }
    proof {
        assert(order@ =~= all_below(n as nat));
    }
    shuffle(&mut order, seed);
    proof {
        lemma_shuffled_is_permutation(order@, n as nat);
    }
    order
}

} // verus!
