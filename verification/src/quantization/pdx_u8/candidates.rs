//! The bounded set of best candidates of a search.
use vstd::prelude::*;
use vstd::seq_lib::*;

verus! {

/// A corpus vector with the key of its distance; a smaller key is nearer.
#[derive(Clone, Copy, Debug, PartialEq, Eq, Structural)]
pub struct KnCand {
    pub dist: u32,
    pub corpus_idx: u32,
}

/// Candidates are ordered by distance key, then by corpus index.
pub open spec fn precedes(a: KnCand, b: KnCand) -> bool {
    a.dist < b.dist || (a.dist == b.dist && a.corpus_idx <= b.corpus_idx)
}

pub open spec fn ascending(s: Seq<KnCand>) -> bool {
    forall|i: int, j: int| 0 <= i < j < s.len() ==> #[trigger] precedes(s[i], #[trigger] s[j])
}

/// An ascending sequence with one more candidate in its place.
pub open spec fn insert_sorted(s: Seq<KnCand>, c: KnCand) -> Seq<KnCand>
    decreases s.len(),
{
    if s.len() == 0 || precedes(s.last(), c) {
        s.push(c)
    } else {
        insert_sorted(s.drop_last(), c).push(s.last())
    }
}

/// What remains of the candidates `s` when `c` is offered and at most `k` are
/// kept: `c` joins while there is room, and afterwards replaces the last
/// candidate when its key is smaller.
pub open spec fn offer(s: Seq<KnCand>, k: nat, c: KnCand) -> Seq<KnCand> {
    if s.len() < k {
        insert_sorted(s, c)
    } else if s.len() > 0 && c.dist < s.last().dist {
        insert_sorted(s.drop_last(), c)
    } else {
        s
    }
}

/// The candidates after each of `cands` has been offered in turn.
pub open spec fn offer_all(s: Seq<KnCand>, k: nat, cands: Seq<KnCand>) -> Seq<KnCand>
    decreases cands.len(),
{
    if cands.len() == 0 {
        s
    } else {
        offer(offer_all(s, k, cands.drop_last()), k, cands.last())
    }
}

/// Candidates as a search hands them out: pairs of corpus index and key.
pub open spec fn as_hits(s: Seq<KnCand>) -> Seq<(usize, u32)> {
    s.map_values(|c: KnCand| (c.corpus_idx as usize, c.dist))
}

pub proof fn lemma_insert_sorted_at(s: Seq<KnCand>, c: KnCand, pos: int)
    requires
        0 <= pos <= s.len(),
        pos > 0 ==> precedes(s[pos - 1], c),
        forall|i: int| pos <= i < s.len() ==> !precedes(#[trigger] s[i], c),
    ensures
        insert_sorted(s, c) == s.insert(pos, c),
    decreases s.len(),
{
    if s.len() == 0 || precedes(s.last(), c) {
        if s.len() > 0 {
            assert(pos == s.len()) by {
                if pos < s.len() {
                    assert(!precedes(s[s.len() - 1], c));
                }
            }
        }
        assert(s.push(c) =~= s.insert(pos, c));
    } else {
        lemma_insert_sorted_at(s.drop_last(), c, pos);
        assert(s.drop_last().insert(pos, c).push(s.last()) =~= s.insert(pos, c));
    }
}

pub proof fn lemma_insert_sorted(s: Seq<KnCand>, c: KnCand)
    requires
        ascending(s),
    ensures
        ascending(insert_sorted(s, c)),
        insert_sorted(s, c).len() == s.len() + 1,
        insert_sorted(s, c).to_multiset() == s.to_multiset().insert(c),
        forall|x: KnCand|
            #[trigger] insert_sorted(s, c).contains(x) <==> s.contains(x) || x == c,
    decreases s.len(),
{
    broadcast use group_to_multiset_ensures;

    if s.len() == 0 || precedes(s.last(), c) {
        let r = s.push(c);
        assert(forall|i: int| 0 <= i < s.len() ==> precedes(#[trigger] s[i], c)) by {
            assert forall|i: int| 0 <= i < s.len() implies precedes(#[trigger] s[i], c) by {
                if i < s.len() - 1 {
                    assert(precedes(s[i], s[s.len() - 1]));
                }
            }
        }
        assert forall|x: KnCand| #[trigger] r.contains(x) <==> s.contains(x) || x == c by {
            if s.contains(x) {
                let i = choose|i: int| 0 <= i < s.len() && s[i] == x;
                assert(r[i] == x);
            }
            if x == c {
                assert(r[s.len() as int] == x);
            }
            if r.contains(x) {
                let i = choose|i: int| 0 <= i < r.len() && r[i] == x;
                if i < s.len() {
                    assert(s[i] == x);
                }
            }
        }
    } else {
        let t = s.drop_last();
        assert(ascending(t));
        lemma_insert_sorted(t, c);
        let u = insert_sorted(t, c);
        let r = u.push(s.last());
        assert(s =~= t.push(s.last()));
        assert forall|i: int| 0 <= i < u.len() implies precedes(#[trigger] u[i], s.last()) by {
            assert(u.contains(u[i]));
            if t.contains(u[i]) {
                let j = choose|j: int| 0 <= j < t.len() && t[j] == u[i];
                assert(precedes(s[j], s[s.len() - 1]));
            }
        }
        assert(s.to_multiset() == t.to_multiset().insert(s.last()));
        assert(r.to_multiset() == u.to_multiset().insert(s.last()));
        assert(t.to_multiset().insert(c).insert(s.last()) =~= t.to_multiset().insert(
            s.last(),
        ).insert(c));
        assert forall|x: KnCand| #[trigger] r.contains(x) <==> s.contains(x) || x == c by {
            if s.contains(x) {
                let i = choose|i: int| 0 <= i < s.len() && s[i] == x;
                if i < t.len() {
                    assert(t[i] == x);
                    assert(u.contains(x));
                    let j = choose|j: int| 0 <= j < u.len() && u[j] == x;
                    assert(r[j] == x);
                } else {
                    assert(r[u.len() as int] == x);
                }
            }
            if x == c {
                assert(u.contains(x));
                let j = choose|j: int| 0 <= j < u.len() && u[j] == x;
                assert(r[j] == x);
            }
            if r.contains(x) {
                let i = choose|i: int| 0 <= i < r.len() && r[i] == x;
                if i < u.len() {
                    assert(u[i] == x);
                    assert(u.contains(x));
                    if t.contains(x) {
                        let j = choose|j: int| 0 <= j < t.len() && t[j] == x;
                        assert(s[j] == x);
                    }
                } else {
                    assert(s[s.len() - 1] == x);
                }
            }
        }
    }
}

pub proof fn lemma_offer(s: Seq<KnCand>, k: nat, c: KnCand)
    requires
        ascending(s),
        s.len() <= k,
    ensures
        ascending(offer(s, k, c)),
        offer(s, k, c).len() == if s.len() < k {
            s.len() + 1
        } else {
            k
        },
        forall|x: KnCand| #[trigger] offer(s, k, c).contains(x) ==> s.contains(x) || x == c,
{
    if s.len() < k {
        lemma_insert_sorted(s, c);
    } else if s.len() > 0 && c.dist < s.last().dist {
        assert(ascending(s.drop_last()));
        lemma_insert_sorted(s.drop_last(), c);
        assert forall|x: KnCand| #[trigger] offer(s, k, c).contains(x) implies s.contains(x) || x
            == c by {
            if s.drop_last().contains(x) {
                let j = choose|j: int| 0 <= j < s.drop_last().len() && s.drop_last()[j] == x;
                assert(s[j] == x);
            }
        }
    }
}

/// The candidates kept so far, nearest first.
pub struct CandidateHeap {
    items: Vec<KnCand>,
}

impl CandidateHeap {
    pub closed spec fn view(&self) -> Seq<KnCand> {
        self.items@
    }

    pub closed spec fn wf(&self) -> bool {
        ascending(self.items@)
    }

    pub fn new() -> (r: CandidateHeap)
        ensures
            r.wf(),
            r@ == Seq::<KnCand>::empty(),
    {
        CandidateHeap { items: Vec::new() }
    }

    pub fn len(&self) -> (r: usize)
        ensures
            r == self@.len(),
    {
        self.items.len()
    }

    /// Distance key of the farthest candidate.
    pub fn worst(&self) -> (r: Option<u32>)
        ensures
            self@.len() == 0 ==> r is None,
            self@.len() > 0 ==> r == Some(self@.last().dist),
    {
        if self.items.len() == 0 {
            None
        } else {
            Some(self.items[self.items.len() - 1].dist)
        }
    }

    /// Adds a candidate.
    pub fn push(&mut self, c: KnCand)
        requires
            old(self).wf(),
        ensures
            final(self).wf(),
            final(self)@ == insert_sorted(old(self)@, c),
    {
        let ghost before = self.items@;
        let mut pos: usize = self.items.len();
        while pos > 0 && (self.items[pos - 1].dist > c.dist || (self.items[pos - 1].dist == c.dist
            && self.items[pos - 1].corpus_idx > c.corpus_idx))
            invariant
                self.items@ == before,
                pos <= before.len(),
                forall|i: int| pos <= i < before.len() ==> !precedes(#[trigger] before[i], c),
            decreases pos,
        {
            pos -= 1;
        }
        proof {
            lemma_insert_sorted_at(before, c, pos as int);
            lemma_insert_sorted(before, c);
        }
        self.items.insert(pos, c);
    }

    /// Offers a candidate to a set that keeps at most `k`.
    pub fn maybe_push(&mut self, k: usize, c: KnCand)
        requires
            old(self).wf(),
        ensures
            final(self).wf(),
            final(self)@ == offer(old(self)@, k as nat, c),
    {
        let n: usize = self.items.len();
        if n < k {
            self.push(c);
        } else if n > 0 && c.dist < self.items[n - 1].dist {
            let ghost before = self.items@;
            self.items.pop();
            proof {
                assert(self.items@ =~= before.drop_last());
            }
            self.push(c);
        }
    }

    /// The candidates by rising distance key, those of one key by rising corpus
    /// index.
    pub fn into_ranked(self) -> (r: Vec<KnCand>)
        requires
            self.wf(),
        ensures
            r@ == self@,
            ascending(r@),
    {
        self.items
    }
}

/// Offering keeps the nearest. As many candidates stay as there is room for, all
/// of them known or offered before; and one that is left out, of those known and
/// those offered, is no nearer than the last that stays.
pub proof fn law_offers_keep_the_nearest(s: Seq<KnCand>, k: nat, cands: Seq<KnCand>)
    requires
        ascending(s),
        s.len() <= k,
        k > 0,
    ensures
        ascending(offer_all(s, k, cands)),
        offer_all(s, k, cands).len() == if s.len() + cands.len() <= k {
            s.len() + cands.len()
        } else {
            k
        },
        forall|x: KnCand| #[trigger]
            offer_all(s, k, cands).to_multiset().count(x) <= s.to_multiset().count(x)
                + cands.to_multiset().count(x),
        forall|x: KnCand| #[trigger]
            offer_all(s, k, cands).to_multiset().count(x) < s.to_multiset().count(x)
                + cands.to_multiset().count(x) ==> offer_all(s, k, cands).len() == k && offer_all(
                s,
                k,
                cands,
            ).last().dist <= x.dist,
        s.len() == k ==> offer_all(s, k, cands).last().dist <= s.last().dist,
    decreases cands.len(),
{
    broadcast use group_to_multiset_ensures;

    if cands.len() == 0 {
        assert(cands =~= Seq::empty());
    } else {
        let t = cands.drop_last();
        let c = cands.last();
        law_offers_keep_the_nearest(s, k, t);
        let u = offer_all(s, k, t);
        let r = offer_all(s, k, cands);
        lemma_offer(u, k, c);
        assert(cands =~= t.push(c));
        assert(cands.to_multiset() == t.to_multiset().insert(c));
        if u.len() < k {
            lemma_insert_sorted(u, c);
            assert(r.to_multiset() == u.to_multiset().insert(c));
        } else if c.dist < u.last().dist {
            let v = u.drop_last();
            assert(ascending(v));
            lemma_insert_sorted(v, c);
            assert(u =~= v.push(u.last()));
            assert(u.to_multiset() == v.to_multiset().insert(u.last()));
            assert(r.to_multiset() == v.to_multiset().insert(c));
            assert(r.last().dist <= u.last().dist) by {
                assert(r.contains(r.last()));
                if v.contains(r.last()) {
                    let i = choose|i: int| 0 <= i < v.len() && v[i] == r.last();
                    assert(precedes(u[i], u[u.len() - 1]));
                }
            }
            assert forall|x: KnCand| #[trigger]
                r.to_multiset().count(x) < s.to_multiset().count(x) + cands.to_multiset().count(
                    x,
                ) implies r.last().dist <= x.dist by {
                if x != u.last() {
                    assert(u.to_multiset().count(x) == v.to_multiset().count(x));
                    assert(u.to_multiset().count(x) < s.to_multiset().count(x)
                        + t.to_multiset().count(x));
                }
            }
        }
    }
}

/// What it is for candidates to be in order: a nearer one comes first, and of
/// two as near the one with the smaller corpus index.
pub proof fn law_ascending_is_by_distance_and_index(s: Seq<KnCand>, i: int, j: int)
    requires
        ascending(s),
        0 <= i < j < s.len(),
    ensures
        s[i].dist <= s[j].dist,
        s[i].dist == s[j].dist ==> s[i].corpus_idx <= s[j].corpus_idx,
{
    assert(precedes(s[i], s[j]));
}

/// Offers that are no nearer than the last candidate of a full set change
/// nothing.
pub proof fn law_far_offers_change_nothing(s: Seq<KnCand>, k: nat, cands: Seq<KnCand>)
    requires
        s.len() == k > 0,
        forall|i: int| 0 <= i < cands.len() ==> (#[trigger] cands[i]).dist >= s.last().dist,
    ensures
        offer_all(s, k, cands) == s,
    decreases cands.len(),
{
    if cands.len() > 0 {
        let t = cands.drop_last();
        assert forall|i: int| 0 <= i < t.len() implies (#[trigger] t[i]).dist
            >= s.last().dist by {
            assert(t[i] == cands[i]);
        }
        law_far_offers_change_nothing(s, k, t);
        assert(cands[cands.len() - 1].dist >= s.last().dist);
    }
}

} // verus!
