//! Ranking by score, and how well a ranking agrees with the truth.
use vstd::prelude::*;
use vstd::multiset::Multiset;
use vstd::seq_lib::*;
use crate::arith::{lemma_places_step, places};

verus! {

/// A document with the key of its score; a larger key is a better score.
#[derive(Clone, Copy, Debug, PartialEq, Eq, Structural)]
pub struct ScoredDoc {
    pub score: u32,
    pub id: u64,
}

/// `a` ranks at least as high as `b`: by score, then by id.
pub open spec fn ranks_before(a: ScoredDoc, b: ScoredDoc) -> bool {
    a.score > b.score || (a.score == b.score && a.id >= b.id)
}

/// Each document ranks at least as high as the next.
pub open spec fn is_ranked(s: Seq<ScoredDoc>) -> bool {
    forall|i: int, j: int| 0 <= i < j < s.len() ==> #[trigger] ranks_before(s[i], #[trigger] s[j])
}

/// `top` are the `k` best of `all` (or all of them, where there are fewer),
/// best first: the others in `rest` rank no higher than any of them.
pub open spec fn is_top(
    all: Seq<ScoredDoc>,
    top: Seq<ScoredDoc>,
    rest: Multiset<ScoredDoc>,
    k: nat,
) -> bool {
    &&& top.len() == if all.len() < k {
        all.len()
    } else {
        k
    }
    &&& is_ranked(top)
    &&& all.to_multiset() == top.to_multiset().add(rest)
    &&& forall|i: int, x: ScoredDoc|
        0 <= i < top.len() && #[trigger] rest.contains(x) ==> ranks_before(#[trigger] top[i], x)
}

/// `top` are the `k` best of `all`, best first.
pub open spec fn are_top(all: Seq<ScoredDoc>, top: Seq<ScoredDoc>, k: nat) -> bool {
    exists|rest: Multiset<ScoredDoc>| #[trigger] is_top(all, top, rest, k)
}

proof fn lemma_insert_multiset(s: Seq<ScoredDoc>, pos: int, c: ScoredDoc)
    requires
        0 <= pos <= s.len(),
    ensures
        s.insert(pos, c).to_multiset() == s.to_multiset().insert(c),
{
    broadcast use group_to_multiset_ensures;

    assert(s.insert(pos, c) =~= s.take(pos).push(c) + s.skip(pos));
    assert(s =~= s.take(pos) + s.skip(pos));
    lemma_multiset_commutative(s.take(pos), s.skip(pos));
    lemma_multiset_commutative(s.take(pos).push(c), s.skip(pos));
    assert(s.insert(pos, c).to_multiset() =~= s.to_multiset().insert(c));
}

proof fn lemma_offer(
    all: Seq<ScoredDoc>,
    top: Seq<ScoredDoc>,
    rest: Multiset<ScoredDoc>,
    k: nat,
    c: ScoredDoc,
    pos: int,
)
    requires
        is_top(all, top, rest, k),
        0 <= pos <= top.len(),
        pos > 0 ==> ranks_before(top[pos - 1], c),
        forall|i: int| pos <= i < top.len() ==> ranks_before(c, #[trigger] top[i]),
    ensures
        top.len() < k ==> is_top(all.push(c), top.insert(pos, c), rest, k),
        top.len() == k && pos < top.len() ==> is_top(
            all.push(c),
            top.insert(pos, c).drop_last(),
            rest.insert(top.last()),
            k,
        ),
        top.len() == k && pos == top.len() ==> is_top(all.push(c), top, rest.insert(c), k),
{
    broadcast use group_to_multiset_ensures;

    let more = all.push(c);
    let grown = top.insert(pos, c);
    assert(more.to_multiset() == all.to_multiset().insert(c));
    lemma_insert_multiset(top, pos, c);
    assert forall|i: int| 0 <= i < pos implies ranks_before(#[trigger] top[i], c) by {
        if i < pos - 1 {
            assert(ranks_before(top[i], top[pos - 1]));
        }
    }
    assert forall|i: int, j: int| 0 <= i < j < grown.len() implies #[trigger] ranks_before(
        grown[i],
        #[trigger] grown[j],
    ) by {
        let i0 = if i < pos {
            i
        } else {
            i - 1
        };
        let j0 = if j < pos {
            j
        } else {
            j - 1
        };
        if i == pos {
            assert(grown[j] == top[j0]);
        } else if j == pos {
            assert(grown[i] == top[i0]);
        } else {
            assert(grown[i] == top[i0] && grown[j] == top[j0]);
            assert(ranks_before(top[i0], top[j0]));
        }
    }
    if top.len() < k {
        assert(all.len() == top.len());
        assert(rest.len() == 0) by {
            assert(all.to_multiset().len() == top.to_multiset().len() + rest.len());
        }
        assert(more.to_multiset() =~= grown.to_multiset().add(rest));
        assert forall|i: int, x: ScoredDoc| 0 <= i < grown.len() && #[trigger] rest.contains(
            x,
        ) implies ranks_before(#[trigger] grown[i], x) by {
            assert(rest.count(x) > 0);
            assert(rest.len() >= 1) by {
                if rest.count(x) > 0 {
                    assert(rest.remove(x).len() + 1 == rest.len());
                }
            }
        }
    } else if pos < top.len() {
        let next = grown.drop_last();
        let last = top.last();
        let others = rest.insert(last);
        assert(grown =~= next.push(last));
        assert(grown.to_multiset() == next.to_multiset().insert(last));
        assert(top.to_multiset().insert(c).add(rest) =~= top.to_multiset().add(rest).insert(c));
        assert(next.to_multiset().insert(last).add(rest) =~= next.to_multiset().add(others));
        assert(more.to_multiset() == next.to_multiset().add(others));
        assert forall|i: int, x: ScoredDoc| 0 <= i < next.len() && #[trigger] others.contains(
            x,
        ) implies ranks_before(#[trigger] next[i], x) by {
            assert(next[i] == grown[i]);
            assert(grown[grown.len() - 1] == last);
            assert(ranks_before(grown[i], grown[grown.len() - 1]));
            if x != last {
                assert(rest.contains(x));
                assert(ranks_before(top[top.len() - 1], x));
            }
        }
        assert(is_ranked(next));
    } else {
        let others = rest.insert(c);
        assert(more.to_multiset() =~= top.to_multiset().add(others));
        assert forall|i: int, x: ScoredDoc| 0 <= i < top.len() && #[trigger] others.contains(
            x,
        ) implies ranks_before(#[trigger] top[i], x) by {
            if x != c {
                assert(rest.contains(x));
            }
        }
    }
}

/// The `k` best documents, best first; of equal scores, the larger id first.
pub fn top_k_by_score(scores: &[ScoredDoc], k: usize) -> (top: Vec<ScoredDoc>)
    ensures
        are_top(scores@, top@, k as nat),
{
    broadcast use group_to_multiset_ensures;

    let mut top: Vec<ScoredDoc> = Vec::new();
    let ghost mut rest: Multiset<ScoredDoc> = Multiset::empty();
    proof {
        let none = Seq::<ScoredDoc>::empty();
        assert(scores@.take(0) =~= none);
        assert(top@ =~= none);
        assert(none.to_multiset().add(rest) =~= none.to_multiset());
    }
    for i in 0..scores.len()
        invariant
            is_top(scores@.take(i as int), top@, rest, k as nat),
            top@.len() <= k,
    {
        let c = scores[i];
        let n: usize = top.len();
        let mut pos: usize = n;
        while pos > 0 && !(top[pos - 1].score > c.score || (top[pos - 1].score == c.score && top[pos
            - 1].id >= c.id))
            invariant
                pos <= n,
                n == top@.len(),
                forall|j: int| pos <= j < n ==> ranks_before(c, #[trigger] top@[j]),
            decreases pos,
        {
            pos = pos - 1;
        }
        let ghost before = top@;
        proof {
            assert(scores@.take(i + 1) =~= scores@.take(i as int).push(c));
            lemma_offer(scores@.take(i as int), before, rest, k as nat, c, pos as int);
        }
        if n < k {
            top.insert(pos, c);
        } else if pos < n {
            top.insert(pos, c);
            top.pop();
            proof {
                assert(top@ =~= before.insert(pos as int, c).drop_last());
                rest = rest.insert(before.last());
            }
        } else {
            proof {
                rest = rest.insert(c);
            }
        }
    }
    proof {
        assert(scores@.take(scores@.len() as int) =~= scores@);
        assert(is_top(scores@, top@, rest, k as nat));
    }
    top
}

/// There is only one best-first list of the `k` best.
pub proof fn law_top_is_unique(
    all: Seq<ScoredDoc>,
    a: Seq<ScoredDoc>,
    ra: Multiset<ScoredDoc>,
    b: Seq<ScoredDoc>,
    rb: Multiset<ScoredDoc>,
    k: nat,
)
    requires
        is_top(all, a, ra, k),
        is_top(all, b, rb, k),
    ensures
        a == b,
    decreases a.len(),
{
    broadcast use group_to_multiset_ensures;

    if a.len() > 0 {
        let x = a[0];
        let y = b[0];
        assert(a.contains(x));
        assert(a.to_multiset().contains(x));
        assert(all.to_multiset().contains(x));
        assert(b.contains(y));
        assert(b.to_multiset().contains(y));
        assert(all.to_multiset().contains(y));
        assert(ranks_before(x, y)) by {
            if a.to_multiset().contains(y) {
                assert(a.contains(y));
                let i = choose|i: int| 0 <= i < a.len() && a[i] == y;
                if i > 0 {
                    assert(ranks_before(a[0], a[i]));
                }
            } else {
                assert(ra.contains(y));
            }
        }
        assert(ranks_before(y, x)) by {
            if b.to_multiset().contains(x) {
                assert(b.contains(x));
                let i = choose|i: int| 0 <= i < b.len() && b[i] == x;
                if i > 0 {
                    assert(ranks_before(b[0], b[i]));
                }
            } else {
                assert(rb.contains(x));
            }
        }
        assert(x == y);
        assert(all.contains(x));
        let at = choose|at: int| 0 <= at < all.len() && all[at] == x;
        let fewer = all.remove(at);
        to_multiset_remove(all, at);
        let a1 = a.remove(0);
        let b1 = b.remove(0);
        to_multiset_remove(a, 0);
        to_multiset_remove(b, 0);
        let k1 = (k - 1) as nat;
        assert(fewer.to_multiset() =~= a1.to_multiset().add(ra));
        assert(fewer.to_multiset() =~= b1.to_multiset().add(rb));
        assert(is_top(fewer, a1, ra, k1)) by {
            assert forall|i: int, j: int| 0 <= i < j < a1.len() implies #[trigger] ranks_before(
                a1[i],
                #[trigger] a1[j],
            ) by {
                assert(ranks_before(a[i + 1], a[j + 1]));
            }
            assert forall|i: int, z: ScoredDoc|
                0 <= i < a1.len() && #[trigger] ra.contains(z) implies ranks_before(
                #[trigger] a1[i],
                z,
            ) by {
                assert(ranks_before(a[i + 1], z));
            }
        }
        assert(is_top(fewer, b1, rb, k1)) by {
            assert forall|i: int, j: int| 0 <= i < j < b1.len() implies #[trigger] ranks_before(
                b1[i],
                #[trigger] b1[j],
            ) by {
                assert(ranks_before(b[i + 1], b[j + 1]));
            }
            assert forall|i: int, z: ScoredDoc|
                0 <= i < b1.len() && #[trigger] rb.contains(z) implies ranks_before(
                #[trigger] b1[i],
                z,
            ) by {
                assert(ranks_before(b[i + 1], z));
            }
        }
        law_top_is_unique(fewer, a1, ra, b1, rb, k1);
        assert(a =~= seq![x] + a1);
        assert(b =~= seq![y] + b1);
    }
    assert(a =~= b);
}

/// Where a ranking hits the truth, and how many documents of the truth count.
pub struct RankedHits {
    pub ranks: Vec<usize>,
    pub truth: usize,
}

/// The lesser of two numbers.
pub open spec fn lesser(a: nat, b: nat) -> nat {
    if a <= b {
        a
    } else {
        b
    }
}

/// `id` is among the first `n` of `ids`.
pub open spec fn is_among(ids: Seq<u64>, id: u64, n: nat) -> bool {
    exists|i: int| 0 <= i < n && ids[i] == id
}

/// The ranks below `n` whose documents are among the first `m` of the truth,
/// rising.
pub open spec fn hit_ranks(ranked: Seq<u64>, truth: Seq<u64>, m: nat, n: nat) -> Seq<usize>
    decreases n,
{
    if n == 0 {
        Seq::empty()
    } else if is_among(truth, ranked[n - 1], m) {
        hit_ranks(ranked, truth, m, (n - 1) as nat).push((n - 1) as usize)
    } else {
        hit_ranks(ranked, truth, m, (n - 1) as nat)
    }
}

/// Finds the ranks below `k` whose documents are among the `k` true
/// neighbours. Their number over `k` is the recall.
pub fn metrics_for(ground_truth_ids: &[u64], got_ranked: &[u64], k: usize) -> (r: RankedHits)
    ensures
        r.truth == lesser(ground_truth_ids@.len(), k as nat),
        r.ranks@ == hit_ranks(
            got_ranked@,
            ground_truth_ids@,
            lesser(ground_truth_ids@.len(), k as nat),
            lesser(got_ranked@.len(), k as nat),
        ),
        r.ranks@.len() <= k,
        forall|rank: int|
            0 <= rank < k && rank < got_ranked@.len() ==> (r.ranks@.contains(rank as usize)
                <==> exists|e: int|
                0 <= e < k && e < ground_truth_ids@.len() && #[trigger] ground_truth_ids@[e]
                    == #[trigger] got_ranked@[rank]),
        forall|a: int|
            0 <= a < r.ranks@.len() ==> #[trigger] r.ranks@[a] < k && r.ranks@[a]
                < got_ranked@.len(),
        forall|a: int, b: int|
            0 <= a < b < r.ranks@.len() ==> #[trigger] r.ranks@[a] < #[trigger] r.ranks@[b],
{
    let m: usize = if ground_truth_ids.len() <= k {
        ground_truth_ids.len()
    } else {
        k
    };
    let n: usize = if got_ranked.len() <= k {
        got_ranked.len()
    } else {
        k
    };
    let mut ranks: Vec<usize> = Vec::new();
    for i in 0..n
        invariant
            m <= ground_truth_ids@.len(),
            n <= got_ranked@.len(),
            ranks@ == hit_ranks(got_ranked@, ground_truth_ids@, m as nat, i as nat),
            ranks@.len() <= i,
    {
        let id: u64 = got_ranked[i];
        let mut found: bool = false;
        for j in 0..m
            invariant
                m <= ground_truth_ids@.len(),
                found == is_among(ground_truth_ids@, id, j as nat),
        {
            proof {
                if found {
                    let e = choose|e: int| 0 <= e < j && ground_truth_ids@[e] == id;
                    assert(0 <= e < j + 1 && ground_truth_ids@[e] == id);
                }
                if ground_truth_ids@[j as int] == id {
                    assert(0 <= j < j + 1 && ground_truth_ids@[j as int] == id);
                }
            }
            if ground_truth_ids[j] == id {
                found = true;
            }
        }
        if found {
            ranks.push(i);
        }
    }
    proof {
        law_hits_are_ranks_of_the_truth(got_ranked@, ground_truth_ids@, m as nat, n as nat);
        assert forall|rank: int| 0 <= rank < k && rank < got_ranked@.len() implies (
        ranks@.contains(rank as usize) <==> exists|e: int|
            0 <= e < k && e < ground_truth_ids@.len() && #[trigger] ground_truth_ids@[e]
                == #[trigger] got_ranked@[rank]) by {
            law_hits_are_complete(got_ranked@, ground_truth_ids@, m as nat, n as nat, rank);
            if ranks@.contains(rank as usize) {
                let e = choose|e: int|
                    0 <= e < m && #[trigger] ground_truth_ids@[e] == got_ranked@[rank];
                assert(0 <= e < k && ground_truth_ids@[e] == got_ranked@[rank]);
            }
        }
    }
    RankedHits { ranks, truth: m }
}

/// A ranking that starts with the truth hits at every rank of it.
pub proof fn law_perfect_ranking_hits_everywhere(
    ranked: Seq<u64>,
    truth: Seq<u64>,
    m: nat,
    n: nat,
)
    requires
        n <= m <= truth.len(),
        n <= ranked.len(),
        n <= usize::MAX,
        forall|i: int| 0 <= i < n ==> #[trigger] ranked[i] == truth[i],
    ensures
        hit_ranks(ranked, truth, m, n) == Seq::new(n, |i: int| i as usize),
    decreases n,
{
    if n > 0 {
        law_perfect_ranking_hits_everywhere(ranked, truth, m, (n - 1) as nat);
        assert(truth[n - 1] == ranked[n - 1]);
        assert(is_among(truth, ranked[n - 1], m));
    }
    assert(hit_ranks(ranked, truth, m, n) =~= Seq::new(n, |i: int| i as usize));
}

/// Hits are listed by rising rank, below the cut-off, and each is a document of
/// the truth.
pub proof fn law_hits_are_ranks_of_the_truth(
    ranked: Seq<u64>,
    truth: Seq<u64>,
    m: nat,
    n: nat,
)
    requires
        n <= ranked.len(),
        n <= usize::MAX,
    ensures
        hit_ranks(ranked, truth, m, n).len() <= n,
        forall|a: int|
            0 <= a < hit_ranks(ranked, truth, m, n).len() ==> {
                let r = #[trigger] hit_ranks(ranked, truth, m, n)[a];
                r < n && is_among(truth, ranked[r as int], m)
            },
        forall|a: int, b: int|
            0 <= a < b < hit_ranks(ranked, truth, m, n).len() ==> #[trigger] hit_ranks(
                ranked,
                truth,
                m,
                n,
            )[a] < #[trigger] hit_ranks(ranked, truth, m, n)[b],
    decreases n,
{
    if n > 0 {
        law_hits_are_ranks_of_the_truth(ranked, truth, m, (n - 1) as nat);
    }
}

/// Hits are complete: a rank is listed if and only if its document is one of the
/// first `m` of the truth, wherever it stands there.
pub proof fn law_hits_are_complete(
    ranked: Seq<u64>,
    truth: Seq<u64>,
    m: nat,
    n: nat,
    rank: int,
)
    requires
        n <= ranked.len(),
        n <= usize::MAX,
        0 <= rank < n,
    ensures
        hit_ranks(ranked, truth, m, n).contains(rank as usize) <==> exists|e: int|
            0 <= e < m && #[trigger] truth[e] == ranked[rank],
    decreases n,
{
    let all = hit_ranks(ranked, truth, m, n);
    let l = (n - 1) as nat;
    let rest = hit_ranks(ranked, truth, m, l);
    law_hits_are_ranks_of_the_truth(ranked, truth, m, l);
    if rank < l {
        law_hits_are_complete(ranked, truth, m, l, rank);
        if rest.contains(rank as usize) {
            let t = choose|t: int| 0 <= t < rest.len() && rest[t] == rank as usize;
            assert(all[t] == rank as usize);
        }
        if all.contains(rank as usize) {
            let t = choose|t: int| 0 <= t < all.len() && all[t] == rank as usize;
            assert(t < rest.len());
            assert(rest[t] == rank as usize);
        }
    } else {
        if all.contains(rank as usize) {
            let t = choose|t: int| 0 <= t < all.len() && all[t] == rank as usize;
            if t < rest.len() {
                assert(rest[t] < l);
            }
            assert(is_among(truth, ranked[rank], m));
        }
        if is_among(truth, ranked[rank], m) {
            assert(all[rest.len() as int] == rank as usize);
            let e = choose|e: int| 0 <= e < m && truth[e] == ranked[rank];
            assert(truth[e] == ranked[rank]);
        }
    }
}

/// The hits of a ranking are the ranks of the documents that the truth holds,
/// and do not depend on the order of the truth.
pub proof fn law_hits_ignore_the_order_of_the_truth(
    ranked: Seq<u64>,
    truth: Seq<u64>,
    other: Seq<u64>,
    n: nat,
)
    requires
        n <= ranked.len(),
        truth.to_multiset() == other.to_multiset(),
    ensures
        hit_ranks(ranked, truth, truth.len(), n) == hit_ranks(ranked, other, other.len(), n),
        hit_ranks(ranked, truth, truth.len(), n) == places(
            n,
            |r: int| truth.contains(ranked[r]),
        ).map_values(|r: int| r as usize),
    decreases n,
{
    broadcast use group_to_multiset_ensures;

    let p = |r: int| truth.contains(ranked[r]);
    let f = |r: int| r as usize;
    if n > 0 {
        let l = (n - 1) as nat;
        law_hits_ignore_the_order_of_the_truth(ranked, truth, other, l);
        lemma_places_step(l, p);
        let x = ranked[n - 1];
        assert(truth.contains(x) <==> truth.to_multiset().contains(x));
        assert(other.contains(x) <==> other.to_multiset().contains(x));
        assert(is_among(truth, x, truth.len()) <==> truth.contains(x));
        assert(is_among(other, x, other.len()) <==> other.contains(x));
        if p(l as int) {
            assert(places(n, p).map_values(f) =~= places(l, p).map_values(f).push(l as usize));
        } else {
            assert(places(n, p).map_values(f) =~= places(l, p).map_values(f));
        }
    } else {
        lemma_places_step(0, p);
        assert(places(0, p).map_values(f) =~= Seq::<usize>::empty());
    }
}

/// The best `k` of some scored documents: as many as there are up to `k`, each as
/// often as it occurs at most, by falling score and then by falling id; and one
/// that is left out is not better than any of them.
pub proof fn law_top_holds_the_best(all: Seq<ScoredDoc>, top: Seq<ScoredDoc>, k: nat)
    requires
        are_top(all, top, k),
    ensures
        top.len() == if all.len() < k {
            all.len()
        } else {
            k
        },
        forall|i: int, j: int|
            0 <= i < j < top.len() ==> (#[trigger] top[i]).score >= (#[trigger] top[j]).score && (
            top[i].score == top[j].score ==> top[i].id >= top[j].id),
        forall|x: ScoredDoc| #[trigger]
            top.to_multiset().count(x) <= all.to_multiset().count(x),
        forall|i: int, x: ScoredDoc|
            0 <= i < top.len() && #[trigger] top.to_multiset().count(x) < all.to_multiset().count(x)
                ==> (#[trigger] top[i]).score >= x.score && (top[i].score == x.score ==> top[i].id
                >= x.id),
{
    let rest = choose|rest: Multiset<ScoredDoc>| #[trigger] is_top(all, top, rest, k);
    assert forall|i: int, j: int| 0 <= i < j < top.len() implies (#[trigger] top[i]).score >= (
    #[trigger] top[j]).score && (top[i].score == top[j].score ==> top[i].id >= top[j].id) by {
        assert(ranks_before(top[i], top[j]));
    }
    assert forall|i: int, x: ScoredDoc|
        0 <= i < top.len() && #[trigger] top.to_multiset().count(x) < all.to_multiset().count(
            x,
        ) implies (#[trigger] top[i]).score >= x.score && (top[i].score == x.score ==> top[i].id
        >= x.id) by {
        assert(rest.count(x) > 0);
        assert(rest.contains(x));
        assert(ranks_before(top[i], x));
    }
}

} // verus!
