//! Stable ordering of indices by integer keys.
use vstd::prelude::*;

verus! {

/// Index `a` comes before index `b`: by key, then by index.
pub open spec fn key_before(keys: Seq<u64>, a: int, b: int) -> bool {
    keys[a] < keys[b] || (keys[a] == keys[b] && a < b)
}

/// `order` lists every index of `keys` once, by rising key, indices of one key
/// in their own order.
pub open spec fn is_stable_order(keys: Seq<u64>, order: Seq<usize>) -> bool {
    &&& order.len() == keys.len()
    &&& ordered_within(keys, order, 0, keys.len() as int)
}

/// `order` holds indices from `lo` to `hi`, each before the next.
pub open spec fn ordered_within(keys: Seq<u64>, order: Seq<usize>, lo: int, hi: int) -> bool {
    &&& forall|i: int| 0 <= i < order.len() ==> lo <= #[trigger] order[i] < hi
    &&& forall|i: int, j: int|
        0 <= i < j < order.len() ==> key_before(
            keys,
            #[trigger] order[i] as int,
            #[trigger] order[j] as int,
        )
}

/// Every index occurs in a stable order.
pub proof fn lemma_order_is_onto(keys: Seq<u64>, order: Seq<usize>, x: int)
    requires
        is_stable_order(keys, order),
        0 <= x < keys.len(),
    ensures
        exists|i: int| 0 <= i < order.len() && #[trigger] order[i] == x,
{
    let n = keys.len();
    let ids = Seq::new(n, |i: int| order[i] as int);
    assert(ids.no_duplicates());
    ids.unique_seq_to_set();
    let all = vstd::set_lib::set_int_range(0, n as int);
    vstd::set_lib::lemma_int_range(0, n as int);
    assert(ids.to_set().subset_of(all)) by {
        assert forall|y: int| #[trigger] ids.to_set().contains(y) implies all.contains(y) by {
            let i = choose|i: int| 0 <= i < ids.len() && ids[i] == y;
            assert(0 <= order[i] < n);
        }
    }
    vstd::set_lib::lemma_subset_equality(ids.to_set(), all);
    assert(ids.to_set().contains(x));
    let i = choose|i: int| 0 <= i < ids.len() && ids[i] == x;
    assert(order[i] == x);
}

/// There is only one stable order.
pub proof fn lemma_order_is_unique(keys: Seq<u64>, a: Seq<usize>, b: Seq<usize>)
    requires
        is_stable_order(keys, a),
        is_stable_order(keys, b),
    ensures
        a == b,
{
    lemma_order_prefix_unique(keys, a, b, keys.len());
    assert(a =~= b);
}

proof fn lemma_order_prefix_unique(keys: Seq<u64>, a: Seq<usize>, b: Seq<usize>, n: nat)
    requires
        is_stable_order(keys, a),
        is_stable_order(keys, b),
        n <= keys.len(),
    ensures
        forall|i: int| 0 <= i < n ==> #[trigger] a[i] == b[i],
    decreases n,
{
    if n > 0 {
        let m = n - 1;
        lemma_order_prefix_unique(keys, a, b, m as nat);
        if a[m] != b[m] {
            lemma_order_is_onto(keys, b, a[m] as int);
            let i = choose|i: int| 0 <= i < b.len() && #[trigger] b[i] == a[m];
            if i < m {
                assert(a[i] == b[i]);
                assert(key_before(keys, a[i] as int, a[m] as int));
            }
            assert(key_before(keys, b[m] as int, b[i] as int));
            lemma_order_is_onto(keys, a, b[m] as int);
            let j = choose|j: int| 0 <= j < a.len() && #[trigger] a[j] == b[m];
            if j < m {
                assert(a[j] == b[j]);
                assert(key_before(keys, b[j] as int, b[m] as int));
            }
            assert(key_before(keys, a[m] as int, a[j] as int));
        }
    }
}

/// Merges two ordered lists over neighbouring index ranges.
fn merge_orders(
    keys: &[u64],
    left: &Vec<usize>,
    right: &Vec<usize>,
    Ghost(lo): Ghost<int>,
    Ghost(mid): Ghost<int>,
    Ghost(hi): Ghost<int>,
) -> (out: Vec<usize>)
    requires
        0 <= lo <= mid <= hi <= keys@.len(),
        ordered_within(keys@, left@, lo, mid),
        ordered_within(keys@, right@, mid, hi),
    ensures
        out@.len() == left@.len() + right@.len(),
        ordered_within(keys@, out@, lo, hi),
{
    let mut out: Vec<usize> = Vec::new();
    let mut i: usize = 0;
    let mut j: usize = 0;
    while i < left.len() || j < right.len()
        invariant
            0 <= lo <= mid <= hi <= keys@.len(),
            ordered_within(keys@, left@, lo, mid),
            ordered_within(keys@, right@, mid, hi),
            i <= left@.len(),
            j <= right@.len(),
            out@.len() == i + j,
            ordered_within(keys@, out@, lo, hi),
            forall|a: int, b: int|
                0 <= a < out@.len() && i <= b < left@.len() ==> key_before(
                    keys@,
                    #[trigger] out@[a] as int,
                    #[trigger] left@[b] as int,
                ),
            forall|a: int, b: int|
                0 <= a < out@.len() && j <= b < right@.len() ==> key_before(
                    keys@,
                    #[trigger] out@[a] as int,
                    #[trigger] right@[b] as int,
                ),
        decreases left@.len() - i + right@.len() - j,
    {
        let from_left: bool = if i >= left.len() {
            false
        } else if j >= right.len() {
            true
        } else {
            keys[left[i]] <= keys[right[j]]
        };
        if from_left {
            let x: usize = left[i];
            proof {
                assert forall|b: int| j <= b < right@.len() implies key_before(
                    keys@,
                    x as int,
                    #[trigger] right@[b] as int,
                ) by {
                    if b > j {
                        assert(key_before(keys@, right@[j as int] as int, right@[b] as int));
                    }
                }
            }
            out.push(x);
            i += 1;
        } else {
            let x: usize = right[j];
            proof {
                assert forall|b: int| i <= b < left@.len() implies key_before(
                    keys@,
                    x as int,
                    #[trigger] left@[b] as int,
                ) by {
                    if b > i {
                        assert(key_before(keys@, left@[i as int] as int, left@[b] as int));
                    }
                }
            }
            out.push(x);
            j += 1;
        }
    }
    out
}

fn order_range(keys: &[u64], lo: usize, hi: usize) -> (out: Vec<usize>)
    requires
        lo <= hi <= keys@.len(),
    ensures
        out@.len() == hi - lo,
        ordered_within(keys@, out@, lo as int, hi as int),
    decreases hi - lo,
{
    if hi == lo {
        Vec::new()
    } else if hi - lo == 1 {
        let mut out: Vec<usize> = Vec::new();
        out.push(lo);
        out
    } else {
        let mid: usize = lo + (hi - lo) / 2;
        let left = order_range(keys, lo, mid);
        let right = order_range(keys, mid, hi);
        merge_orders(
            keys,
            &left,
            &right,
            Ghost(lo as int),
            Ghost(mid as int),
            Ghost(hi as int),
        )
    }
}

/// The indices of `keys` by rising key; indices of one key keep their order.
pub fn stable_order(keys: &[u64]) -> (order: Vec<usize>)
    ensures
        is_stable_order(keys@, order@),
{
    order_range(keys, 0, keys.len())
}

/// The stable order as a mathematical function of the keys.
pub open spec fn order_of(keys: Seq<u64>) -> Seq<usize> {
    choose|order: Seq<usize>| is_stable_order(keys, order)
}

/// Keys whose indices are machine words have a stable order.
pub proof fn lemma_order_exists(keys: Seq<u64>)
    requires
        keys.len() <= usize::MAX,
    ensures
        is_stable_order(keys, order_of(keys)),
    decreases keys.len(),
{
    if keys.len() == 0 {
        assert(is_stable_order(keys, Seq::<usize>::empty()));
    } else {
        let shorter = keys.drop_last();
        lemma_order_exists(shorter);
        let x = keys.len() - 1;
        let order = insert_index(keys, order_of(shorter), x as usize);
        assert(keys.take(x) =~= shorter);
        lemma_insert_index(keys, order_of(shorter), x);
        assert(is_stable_order(keys, order));
    }
}

spec fn insert_index(keys: Seq<u64>, order: Seq<usize>, x: usize) -> Seq<usize>
    decreases order.len(),
{
    if order.len() == 0 || key_before(keys, order.last() as int, x as int) {
        order.push(x)
    } else {
        insert_index(keys, order.drop_last(), x).push(order.last())
    }
}

proof fn lemma_insert_index(keys: Seq<u64>, order: Seq<usize>, x: int)
    requires
        0 <= x < keys.len(),
        x <= usize::MAX,
        ordered_within(keys.take(x), order, 0, x),
    ensures
        ordered_within(keys, insert_index(keys, order, x as usize), 0, x + 1),
        insert_index(keys, order, x as usize).len() == order.len() + 1,
        forall|i: int|
            0 <= i <= order.len() ==> #[trigger] insert_index(keys, order, x as usize)[i] == x
                || order.contains(insert_index(keys, order, x as usize)[i]),
    decreases order.len(),
{
    let r = insert_index(keys, order, x as usize);
    assert forall|i: int, j: int| 0 <= i < j < order.len() implies key_before(
        keys,
        #[trigger] order[i] as int,
        #[trigger] order[j] as int,
    ) by {
        assert(key_before(keys.take(x), order[i] as int, order[j] as int));
    }
    if order.len() == 0 || key_before(keys, order.last() as int, x) {
        assert forall|i: int, j: int| 0 <= i < j < r.len() implies key_before(
            keys,
            #[trigger] r[i] as int,
            #[trigger] r[j] as int,
        ) by {
            if j == order.len() && i < order.len() - 1 {
                assert(key_before(keys, order[i] as int, order[order.len() - 1] as int));
            }
        }
        assert forall|i: int| 0 <= i <= order.len() implies #[trigger] r[i] == x || order.contains(
            r[i],
        ) by {
            if i < order.len() {
                assert(order[i] == r[i]);
            }
        }
    } else {
        let t = order.drop_last();
        lemma_insert_index(keys, t, x);
        let u = insert_index(keys, t, x as usize);
        assert forall|i: int| 0 <= i < u.len() implies key_before(
            keys,
            #[trigger] u[i] as int,
            order.last() as int,
        ) by {
            if u[i] != x {
                let m = choose|m: int| 0 <= m < t.len() && t[m] == u[i];
                assert(order[m] == u[i]);
                assert(key_before(keys, order[m] as int, order[order.len() - 1] as int));
            }
        }
        assert forall|i: int| 0 <= i <= order.len() implies #[trigger] r[i] == x || order.contains(
            r[i],
        ) by {
            if i < u.len() {
                assert(r[i] == u[i]);
                if u[i] != x {
                    let m = choose|m: int| 0 <= m < t.len() && t[m] == u[i];
                    assert(order[m] == u[i]);
                }
            } else {
                assert(order[order.len() - 1] == r[i]);
            }
        }
    }
}

/// A stable order is the one that `order_of` names.
pub proof fn lemma_order_of(keys: Seq<u64>, order: Seq<usize>)
    requires
        is_stable_order(keys, order),
    ensures
        order_of(keys) == order,
{
    lemma_order_is_unique(keys, order_of(keys), order);
}

/// Where the first `k` indices all have a smaller key than the one at place
/// `t`, they stand before it.
pub proof fn lemma_smaller_stand_before(keys: Seq<u64>, order: Seq<usize>, k: nat, t: int)
    requires
        is_stable_order(keys, order),
        0 <= t < keys.len(),
        k <= keys.len(),
        forall|c: int| 0 <= c < k ==> #[trigger] keys[c] < keys[order[t] as int],
    ensures
        k <= t,
{
    let first = Seq::new(t as nat, |i: int| order[i] as int);
    let small = vstd::set_lib::set_int_range(0, k as int);
    vstd::set_lib::lemma_int_range(0, k as int);
    assert(small.subset_of(first.to_set())) by {
        assert forall|c: int| #[trigger] small.contains(c) implies first.to_set().contains(c) by {
            lemma_order_is_onto(keys, order, c);
            let i = choose|i: int| 0 <= i < order.len() && #[trigger] order[i] == c;
            if i > t {
                assert(key_before(keys, order[t] as int, order[i] as int));
            }
            assert(keys[c] < keys[order[t] as int]);
            assert(first[i] == c);
        }
    }
    first.lemma_cardinality_of_set();
    vstd::set_lib::lemma_len_subset(small, first.to_set());
}

/// Picking the elements of a list in an order that names each place once keeps
/// them all.
pub proof fn lemma_picked<T>(s: Seq<T>, order: Seq<int>)
    requires
        order.len() == s.len(),
        order.no_duplicates(),
        forall|i: int| 0 <= i < order.len() ==> 0 <= #[trigger] order[i] < s.len(),
    ensures
        Seq::new(s.len(), |t: int| s[order[t]]).to_multiset() == s.to_multiset(),
    decreases s.len(),
{
    broadcast use vstd::seq_lib::group_to_multiset_ensures;

    let n = s.len();
    let picked = Seq::new(n, |t: int| s[order[t]]);
    if n == 0 {
        assert(picked =~= s);
    } else {
        let last = n - 1;
        order.unique_seq_to_set();
        let all = vstd::set_lib::set_int_range(0, n as int);
        vstd::set_lib::lemma_int_range(0, n as int);
        assert(order.to_set().subset_of(all)) by {
            assert forall|y: int| #[trigger] order.to_set().contains(y) implies all.contains(y) by {
                let i = choose|i: int| 0 <= i < order.len() && order[i] == y;
                assert(0 <= order[i] < n);
            }
        }
        vstd::set_lib::lemma_subset_equality(order.to_set(), all);
        assert(order.to_set().contains(last));
        let at = choose|at: int| 0 <= at < order.len() && order[at] == last;
        let shorter = s.drop_last();
        let rest = order.remove(at);
        assert forall|i: int| 0 <= i < rest.len() implies 0 <= #[trigger] rest[i]
            < shorter.len() by {
            let j = if i < at {
                i
            } else {
                i + 1
            };
            assert(rest[i] == order[j]);
            assert(order[j] != order[at]);
        }
        assert forall|i: int, j: int| 0 <= i < rest.len() && 0 <= j < rest.len() && i != j implies
            rest[i] != rest[j] by {
            let i0 = if i < at {
                i
            } else {
                i + 1
            };
            let j0 = if j < at {
                j
            } else {
                j + 1
            };
            assert(order[i0] != order[j0]);
        }
        lemma_picked(shorter, rest);
        let inner = Seq::new(shorter.len(), |t: int| shorter[rest[t]]);
        assert(inner =~= picked.remove(at));
        vstd::seq_lib::to_multiset_remove(picked, at);
        assert(picked[at] == s[last]);
        assert(picked.contains(picked[at]));
        assert(picked.to_multiset().contains(picked[at]));
        assert(s =~= shorter.push(s[last]));
        assert(picked.to_multiset() =~= inner.to_multiset().insert(s[last]));
        assert(s.to_multiset() =~= shorter.to_multiset().insert(s[last]));
    }
}

/// Ordering keeps what is ordered: the elements in a stable order of some keys
/// are the same elements.
pub proof fn law_ordering_keeps_elements<T>(s: Seq<T>, keys: Seq<u64>)
    requires
        keys.len() == s.len() <= usize::MAX,
    ensures
        Seq::new(s.len(), |t: int| s[order_of(keys)[t] as int]).to_multiset() == s.to_multiset(),
        forall|i: int, j: int|
            0 <= i < j < s.len() ==> keys[#[trigger] order_of(keys)[i] as int]
                <= keys[#[trigger] order_of(keys)[j] as int],
        forall|i: int, j: int|
            0 <= i < j < s.len() && keys[#[trigger] order_of(keys)[i] as int]
                == keys[#[trigger] order_of(keys)[j] as int] ==> order_of(keys)[i] < order_of(
                keys,
            )[j],
{
    lemma_order_exists(keys);
    let order = order_of(keys);
    let ids = Seq::new(s.len(), |t: int| order[t] as int);
    assert forall|i: int, j: int| 0 <= i < ids.len() && 0 <= j < ids.len() && i != j implies ids[i]
        != ids[j] by {
        if i < j {
            assert(key_before(keys, order[i] as int, order[j] as int));
        } else {
            assert(key_before(keys, order[j] as int, order[i] as int));
        }
    }
    lemma_picked(s, ids);
    assert(Seq::new(s.len(), |t: int| s[ids[t]]) =~= Seq::new(
        s.len(),
        |t: int| s[order[t] as int],
    ));
    assert forall|i: int, j: int| 0 <= i < j < s.len() implies key_before(
        keys,
        #[trigger] order[i] as int,
        #[trigger] order[j] as int,
    ) by {}
}

} // verus!
