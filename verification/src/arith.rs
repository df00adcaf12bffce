//! Small helpers on integers.
use vstd::prelude::*;
use vstd::arithmetic::div_mod::{lemma_fundamental_div_mod, lemma_fundamental_div_mod_converse, lemma_mod_bound};

verus! {

/// The smaller of two numbers.
pub open spec fn smaller(a: nat, b: nat) -> nat {
    if a <= b {
        a
    } else {
        b
    }
}

/// `a / b`, rounded up.
pub fn div_ceil(a: usize, b: usize) -> (r: usize)
    requires
        b > 0,
    ensures
        r == (a + b - 1) / (b as int),
{
    let q: usize = a / b;
    let m: usize = a % b;
    proof {
        let x = a as int;
        let y = b as int;
        lemma_fundamental_div_mod(x, y);
        lemma_mod_bound(x, y);
        assert(y * (x / y) == (x / y) * y) by (nonlinear_arith);
        assert(((x / y) + 1) * y == (x / y) * y + y) by (nonlinear_arith);
        if m == 0 {
            lemma_fundamental_div_mod_converse(x + y - 1, y, x / y, y - 1);
        } else {
            lemma_fundamental_div_mod_converse(x + y - 1, y, x / y + 1, m as int - 1);
            assert(q < usize::MAX) by {
                if b == 1 {
                    assert(m == 0);
                }
                assert((x / y) * 2 <= (x / y) * y) by (nonlinear_arith)
                    requires
                        y >= 2,
                        x / y >= 0,
                ;
            }
        }
    }
    if m == 0 {
        q
    } else {
        q + 1
    }
}

/// The sum of the terms for the numbers below `n`.
pub open spec fn total(n: nat, term: spec_fn(int) -> int) -> int {
    Seq::new(n, term).fold_left(0int, |a: int, b: int| a + b)
}

/// The numbers below `n` that satisfy `p`, rising.
pub open spec fn places(n: nat, p: spec_fn(int) -> bool) -> Seq<int> {
    Seq::new(n, |i: int| i).filter(p)
}

pub proof fn lemma_total_step(n: nat, term: spec_fn(int) -> int)
    ensures
        total(0, term) == 0,
        total(n + 1, term) == total(n, term) + term(n as int),
{
    let f = |a: int, b: int| a + b;
    let s = Seq::new(n + 1, term);
    assert(s.drop_last() =~= Seq::new(n, term));
    assert(s.last() == term(n as int));
}

pub proof fn lemma_total_congruent(n: nat, f: spec_fn(int) -> int, g: spec_fn(int) -> int)
    requires
        forall|i: int| 0 <= i < n ==> #[trigger] f(i) == g(i),
    ensures
        total(n, f) == total(n, g),
{
    assert(Seq::new(n, f) =~= Seq::new(n, g));
}

pub proof fn lemma_places_step(n: nat, p: spec_fn(int) -> bool)
    ensures
        places(0, p) == Seq::<int>::empty(),
        places(n + 1, p) == if p(n as int) {
            places(n, p).push(n as int)
        } else {
            places(n, p)
        },
{
    reveal(Seq::filter);
    let s = Seq::new(n + 1, |i: int| i);
    assert(s.drop_last() =~= Seq::new(n, |i: int| i));
    assert(s.last() == n);
    assert(places(0, p) =~= Seq::<int>::empty());
}

/// What the places hold: each number below `n` that satisfies `p` once, rising.
pub proof fn lemma_places(n: nat, p: spec_fn(int) -> bool)
    ensures
        places(n, p).len() <= n,
        forall|t: int|
            0 <= t < places(n, p).len() ==> 0 <= #[trigger] places(n, p)[t] < n && p(
                places(n, p)[t],
            ),
        forall|s: int, t: int|
            0 <= s < t < places(n, p).len() ==> #[trigger] places(n, p)[s]
                < #[trigger] places(n, p)[t],
        forall|i: int| 0 <= i < n && #[trigger] p(i) ==> places(n, p).contains(i),
    decreases n,
{
    if n > 0 {
        let m = (n - 1) as nat;
        lemma_places(m, p);
        lemma_places_step(m, p);
        let a = places(m, p);
        let b = places(n, p);
        assert forall|i: int| 0 <= i < n && #[trigger] p(i) implies b.contains(i) by {
            if i < m {
                let t = choose|t: int| 0 <= t < a.len() && a[t] == i;
                assert(b[t] == i);
            } else {
                assert(b[a.len() as int] == i);
            }
        }
    } else {
        lemma_places_step(0, p);
    }
}

pub proof fn lemma_places_congruent(n: nat, p: spec_fn(int) -> bool, q: spec_fn(int) -> bool)
    requires
        forall|i: int| 0 <= i < n ==> #[trigger] p(i) == q(i),
    ensures
        places(n, p) == places(n, q),
    decreases n,
{
    if n > 0 {
        lemma_places_congruent((n - 1) as nat, p, q);
        lemma_places_step((n - 1) as nat, p);
        lemma_places_step((n - 1) as nat, q);
        assert(p(n - 1) == q(n - 1));
    } else {
        lemma_places_step(0, p);
        lemma_places_step(0, q);
    }
}

/// A sum of terms in two parts.
pub proof fn lemma_total_split(a: nat, b: nat, term: spec_fn(int) -> int)
    ensures
        total(a + b, term) == total(a, term) + total(b, |i: int| term(a + i)),
    decreases b,
{
    let rest = |i: int| term(a + i);
    if b == 0 {
        lemma_total_step(0, rest);
    } else {
        let c = (b - 1) as nat;
        lemma_total_split(a, c, term);
        lemma_total_step(a + c, term);
        lemma_total_step(c, rest);
    }
}

pub proof fn lemma_total_nonnegative(n: nat, term: spec_fn(int) -> int)
    requires
        forall|i: int| 0 <= i < n ==> #[trigger] term(i) >= 0,
    ensures
        total(n, term) >= 0,
    decreases n,
{
    lemma_total_step(0, term);
    if n > 0 {
        lemma_total_nonnegative((n - 1) as nat, term);
        lemma_total_step((n - 1) as nat, term);
        assert(term(n - 1) >= 0);
    }
}

} // verus!
