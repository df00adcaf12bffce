//! Operations on the rows of row-major matrices, for elements of any type.
use vstd::prelude::*;
use vstd::arithmetic::div_mod::{lemma_fundamental_div_mod, lemma_fundamental_div_mod_converse, lemma_mod_bound};
use crate::arith::{lemma_places_step, lemma_total_step, places, total};
use crate::functions::{is_function, is_function2, value_of, value_of2};
use crate::kmeans::balance::{lemma_members_bound, members};

verus! {

/// Row of the element at `p`.
pub open spec fn row_of(p: int, d: int) -> int {
    p / d
}

/// Column of the element at `p`.
pub open spec fn col_of(p: int, d: int) -> int {
    p % d
}

pub proof fn lemma_place(c: int, j: int, d: int)
    requires
        0 <= j < d,
        0 <= c,
    ensures
        row_of(c * d + j, d) == c,
        col_of(c * d + j, d) == j,
        0 <= c * d,
{
    lemma_fundamental_div_mod_converse(c * d + j, d, c, j);
    assert(0 <= c * d) by (nonlinear_arith)
        requires
            0 <= c,
            d > 0,
    ;
}

pub proof fn lemma_place_of(p: int, d: int, n: int)
    requires
        0 < d,
        0 <= p < n * d,
    ensures
        0 <= row_of(p, d) < n,
        0 <= col_of(p, d) < d,
        p == row_of(p, d) * d + col_of(p, d),
{
    lemma_fundamental_div_mod(p, d);
    lemma_mod_bound(p, d);
    let c = row_of(p, d);
    let j = col_of(p, d);
    assert(p == c * d + j) by (nonlinear_arith)
        requires
            p == d * c + j,
    ;
    assert(0 <= c < n) by (nonlinear_arith)
        requires
            p == c * d + j,
            0 <= j < d,
            0 <= p < n * d,
    ;
}

/// A row ends before the next begins.
pub proof fn lemma_row_end(c: int, n: int, d: int)
    requires
        0 <= c < n,
        0 <= d,
    ensures
        0 <= c * d,
        c * d + d <= n * d,
{
    assert(0 <= c * d && c * d + d <= n * d) by (nonlinear_arith)
        requires
            0 <= c,
            c + 1 <= n,
            0 <= d,
    ;
}

/// `out` holds, row by row, the rows of `src` that `order` names.
pub open spec fn holds_rows_of<T>(
    out: Seq<T>,
    src: Seq<T>,
    order: Seq<usize>,
    n: int,
    d: int,
) -> bool {
    forall|i: int|
        0 <= i < n ==> #[trigger] out.subrange(i * d, i * d + d) == src.subrange(
            order[i] * d,
            order[i] * d + d,
        )
}

/// Copies the rows that the first `n` entries of `order` name.
pub fn copy_rows<T: Copy>(src: &[T], order: &[usize], n: usize, d: usize) -> (out: Vec<T>)
    requires
        n <= order@.len(),
        n * d <= usize::MAX,
        forall|i: int| 0 <= i < n ==> #[trigger] order@[i] * d + d <= src@.len(),
    ensures
        out@.len() == n * d,
        holds_rows_of(out@, src@, order@, n as int, d as int),
{
    let mut out: Vec<T> = Vec::new();
    proof {
        assert(0 * d == 0) by (nonlinear_arith);
    }
    for i in 0..n
        invariant
            n <= order@.len(),
            n * d <= usize::MAX,
            forall|i: int| 0 <= i < n ==> #[trigger] order@[i] * d + d <= src@.len(),
            out@.len() == i * d,
            forall|m: int|
                0 <= m < i ==> #[trigger] out@.subrange(m * d, m * d + d) == src@.subrange(
                    order@[m] * d,
                    order@[m] * d + d,
                ),
    {
        let ghost before = out@;
        proof {
            assert(src@.len() == src.len());
            assert(order@[i as int] * d >= 0) by (nonlinear_arith);
            assert(order@[i as int] * d + d <= src@.len());
            assert((i + 1) * d == i * d + d) by (nonlinear_arith);
        }
        let at: usize = order[i] * d;
        for j in 0..d
            invariant
                at + d <= src@.len(),
                src@.len() <= usize::MAX,
                out@ == before + src@.subrange(at as int, at + j),
        {
            out.push(src[at + j]);
            proof {
                assert(out@ =~= before + src@.subrange(at as int, at + j + 1));
            }
        }
        proof {
            assert forall|m: int| 0 <= m < i + 1 implies #[trigger] out@.subrange(
                m * d,
                m * d + d,
            ) == src@.subrange(order@[m] * d, order@[m] * d + d) by {
                if m < i {
                    lemma_row_end(m, i as int, d as int);
                    assert(out@.subrange(m * d, m * d + d) =~= before.subrange(m * d, m * d + d));
                } else {
                    assert(out@.subrange(i * d, i * d + d) =~= src@.subrange(
                        at as int,
                        at + d,
                    ));
                }
            }
        }
    }
    out
}

/// The sum, from `from` on and in order, of column `j` over those of the first
/// `n` rows that belong to cluster `c`.
pub open spec fn column_sum<T>(
    plus: spec_fn(T, T) -> T,
    from: T,
    data: Seq<T>,
    assignments: Seq<u32>,
    d: int,
    c: int,
    j: int,
    n: nat,
) -> T
    decreases n,
{
    if n == 0 {
        from
    } else {
        let s = column_sum(plus, from, data, assignments, d, c, j, (n - 1) as nat);
        if assignments[n - 1] == c {
            plus(s, data[(n - 1) * d + j])
        } else {
            s
        }
    }
}

/// Adds every row to the sum of its cluster, and counts it.
pub fn add_rows_to_clusters<T: Copy, F: Fn(T, T) -> T>(
    data: &[T],
    assignments: &[u32],
    n_samples: usize,
    d: usize,
    sums: &mut Vec<T>,
    sizes: &mut Vec<u32>,
    plus: &F,
)
    requires
        is_function2(*plus),
        0 < d,
        n_samples <= assignments@.len(),
        n_samples * d <= data@.len(),
        old(sums)@.len() == old(sizes)@.len() * d,
        forall|i: int| 0 <= i < n_samples ==> #[trigger] assignments@[i] < old(sizes)@.len(),
        forall|c: int|
            0 <= c < old(sizes)@.len() ==> #[trigger] old(sizes)@[c] + n_samples <= u32::MAX,
    ensures
        final(sums)@.len() == old(sums)@.len(),
        final(sizes)@.len() == old(sizes)@.len(),
        forall|p: int|
            0 <= p < old(sums)@.len() ==> #[trigger] final(sums)@[p] == column_sum(
                |a: T, b: T| value_of2(*plus, a, b),
                old(sums)@[p],
                data@,
                assignments@,
                d as int,
                row_of(p, d as int),
                col_of(p, d as int),
                n_samples as nat,
            ),
        forall|c: int|
            0 <= c < old(sizes)@.len() ==> #[trigger] final(sizes)@[c] == old(sizes)@[c] + members(
                assignments@,
                n_samples as nat,
                c,
            ),
{
    let ghost sums0 = sums@;
    let ghost sizes0 = sizes@;
    let ghost add_spec = |a: T, b: T| value_of2(*plus, a, b);
    let ghost k = sizes@.len() as int;
    proof {
        assert(data@.len() == data.len());
        assert(sums@.len() == sums.len());
    }
    for i in 0..n_samples
        invariant
            is_function2(*plus),
            0 < d,
            k == sizes0.len(),
            n_samples <= assignments@.len(),
            n_samples * d <= data@.len(),
            data@.len() <= usize::MAX,
            sums0.len() == k * d,
            sums0.len() <= usize::MAX,
            sums@.len() == sums0.len(),
            sizes@.len() == sizes0.len(),
            add_spec == (|a: T, b: T| value_of2(*plus, a, b)),
            forall|i: int| 0 <= i < n_samples ==> #[trigger] assignments@[i] < k,
            forall|c: int| 0 <= c < k ==> #[trigger] sizes0[c] + n_samples <= u32::MAX,
            forall|p: int|
                0 <= p < sums0.len() ==> #[trigger] sums@[p] == column_sum(
                    add_spec,
                    sums0[p],
                    data@,
                    assignments@,
                    d as int,
                    row_of(p, d as int),
                    col_of(p, d as int),
                    i as nat,
                ),
            forall|c: int|
                0 <= c < k ==> #[trigger] sizes@[c] == sizes0[c] + members(
                    assignments@,
                    i as nat,
                    c,
                ),
    {
        let c: usize = assignments[i] as usize;
        proof {
            assert(assignments@[i as int] < k);
            lemma_row_end(c as int, k, d as int);
            lemma_row_end(i as int, n_samples as int, d as int);
            lemma_members_bound(assignments@, i as nat, c as int);
            assert(sizes0[c as int] + n_samples <= u32::MAX);
            assert(sizes@[c as int] == sizes0[c as int] + members(
                assignments@,
                i as nat,
                c as int,
            ));
        }
        sizes[c] = sizes[c] + 1;
        let ghost before = sums@;
        for j in 0..d
            invariant
                is_function2(*plus),
                0 < d,
                i < n_samples,
                c < k,
                c == assignments@[i as int],
                c * d + d <= sums0.len(),
                i * d + d <= data@.len(),
                data@.len() <= usize::MAX,
                sums0.len() == k * d,
                sums0.len() <= usize::MAX,
                before.len() == sums0.len(),
                sums@.len() == sums0.len(),
                add_spec == (|a: T, b: T| value_of2(*plus, a, b)),
                forall|p: int|
                    0 <= p < sums0.len() ==> #[trigger] sums@[p] == if row_of(p, d as int) == c
                        && col_of(p, d as int) < j {
                        add_spec(before[p], data@[i * d + col_of(p, d as int)])
                    } else {
                        before[p]
                    },
        {
            let ghost prev = sums@;
            proof {
                lemma_place(c as int, j as int, d as int);
                assert(i * d >= 0) by (nonlinear_arith);
            }
            let at: usize = c * d + j;
            let x: T = plus(sums[at], data[i * d + j]);
            proof {
                assert(prev[at as int] == before[at as int]);
                assert(x == add_spec(before[at as int], data@[i * d + j]));
            }
            sums[at] = x;
            proof {
                assert forall|p: int| 0 <= p < sums0.len() implies #[trigger] sums@[p] == if row_of(
                    p,
                    d as int,
                ) == c && col_of(p, d as int) < j + 1 {
                    add_spec(before[p], data@[i * d + col_of(p, d as int)])
                } else {
                    before[p]
                } by {
                    lemma_place_of(p, d as int, k);
                    if p != at {
                        assert(sums@[p] == prev[p]);
                        assert(!(row_of(p, d as int) == c && col_of(p, d as int) == j));
                    }
                }
            }
        }
        proof {
            assert forall|p: int| 0 <= p < sums0.len() implies #[trigger] sums@[p] == column_sum(
                add_spec,
                sums0[p],
                data@,
                assignments@,
                d as int,
                row_of(p, d as int),
                col_of(p, d as int),
                (i + 1) as nat,
            ) by {
                lemma_place_of(p, d as int, k);
                assert(before[p] == column_sum(
                    add_spec,
                    sums0[p],
                    data@,
                    assignments@,
                    d as int,
                    row_of(p, d as int),
                    col_of(p, d as int),
                    i as nat,
                ));
            }
        }
    }
}

/// Scales every row by the size of its cluster, where that is not zero.
pub fn scale_rows<T: Copy, F: Fn(T, u32) -> T>(
    rows: &mut Vec<T>,
    sizes: &[u32],
    d: usize,
    scale: &F,
)
    requires
        is_function2(*scale),
        0 < d,
        old(rows)@.len() == sizes@.len() * d,
    ensures
        final(rows)@.len() == old(rows)@.len(),
        forall|p: int|
            0 <= p < old(rows)@.len() ==> #[trigger] final(rows)@[p] == if sizes@[row_of(
                p,
                d as int,
            )] == 0 {
                old(rows)@[p]
            } else {
                value_of2(*scale, old(rows)@[p], sizes@[row_of(p, d as int)])
            },
{
    let ghost before = rows@;
    let len: usize = rows.len();
    for p in 0..len
        invariant
            is_function2(*scale),
            0 < d,
            len == before.len(),
            before.len() == sizes@.len() * d,
            rows@.len() == before.len(),
            forall|q: int| p <= q < before.len() ==> #[trigger] rows@[q] == before[q],
            forall|q: int|
                0 <= q < p ==> #[trigger] rows@[q] == if sizes@[row_of(q, d as int)] == 0 {
                    before[q]
                } else {
                    value_of2(*scale, before[q], sizes@[row_of(q, d as int)])
                },
    {
        proof {
            lemma_place_of(p as int, d as int, sizes@.len() as int);
        }
        let size: u32 = sizes[p / d];
        if size != 0 {
            let x: T = scale(rows[p], size);
            rows[p] = x;
        }
    }
}

/// Copies the first `v` columns of every row.
pub fn leading_columns<T: Copy>(rows: &[T], n: usize, d: usize, v: usize) -> (out: Vec<T>)
    requires
        v <= d,
        rows@.len() == n * d,
    ensures
        out@.len() == n * v,
        forall|i: int|
            0 <= i < n ==> #[trigger] out@.subrange(i * v, i * v + v) == rows@.subrange(
                i * d,
                i * d + v,
            ),
{
    let mut out: Vec<T> = Vec::new();
    proof {
        assert(rows@.len() == rows.len());
        assert(0 * v == 0) by (nonlinear_arith);
    }
    for i in 0..n
        invariant
            v <= d,
            rows@.len() == n * d,
            rows@.len() <= usize::MAX,
            out@.len() == i * v,
            forall|m: int|
                0 <= m < i ==> #[trigger] out@.subrange(m * v, m * v + v) == rows@.subrange(
                    m * d,
                    m * d + v,
                ),
    {
        let ghost before = out@;
        proof {
            lemma_row_end(i as int, n as int, d as int);
            assert((i + 1) * v == i * v + v) by (nonlinear_arith);
        }
        let at: usize = i * d;
        for j in 0..v
            invariant
                v <= d,
                at + d <= rows@.len(),
                rows@.len() <= usize::MAX,
                out@ == before + rows@.subrange(at as int, at + j),
        {
            out.push(rows[at + j]);
            proof {
                assert(out@ =~= before + rows@.subrange(at as int, at + j + 1));
            }
        }
        proof {
            assert forall|m: int| 0 <= m < i + 1 implies #[trigger] out@.subrange(
                m * v,
                m * v + v,
            ) == rows@.subrange(m * d, m * d + v) by {
                if m < i {
                    lemma_row_end(m, i as int, v as int);
                    assert(out@.subrange(m * v, m * v + v) =~= before.subrange(m * v, m * v + v));
                } else {
                    assert(out@.subrange(i * v, i * v + v) =~= rows@.subrange(
                        at as int,
                        at + v,
                    ));
                }
            }
        }
    }
    out
}

/// Row `empty` becomes a copy of row `full`, and the two are moved apart: in
/// even columns the copy by `up` and the other by `down`, in odd columns the
/// other way round.
pub fn split_rows<T: Copy, U: Fn(T) -> T, D: Fn(T) -> T>(
    rows: &mut Vec<T>,
    n: usize,
    d: usize,
    empty: usize,
    full: usize,
    up: &U,
    down: &D,
)
    requires
        is_function(*up),
        is_function(*down),
        0 < d,
        empty < n,
        full < n,
        empty != full,
        old(rows)@.len() == n * d,
    ensures
        final(rows)@.len() == old(rows)@.len(),
        forall|p: int|
            0 <= p < old(rows)@.len() ==> #[trigger] final(rows)@[p] == {
                let j = col_of(p, d as int);
                let x = old(rows)@[full * d + j];
                if row_of(p, d as int) == empty {
                    if j % 2 == 0 {
                        value_of(*up, x)
                    } else {
                        value_of(*down, x)
                    }
                } else if row_of(p, d as int) == full {
                    if j % 2 == 0 {
                        value_of(*down, x)
                    } else {
                        value_of(*up, x)
                    }
                } else {
                    old(rows)@[p]
                }
            },
{
    let ghost before = rows@;
    proof {
        assert(rows@.len() == rows.len());
        lemma_row_end(empty as int, n as int, d as int);
        lemma_row_end(full as int, n as int, d as int);
    }
    for j in 0..d
        invariant
            is_function(*up),
            is_function(*down),
            0 < d,
            empty < n,
            full < n,
            empty != full,
            before.len() == n * d,
            before.len() <= usize::MAX,
            rows@.len() == before.len(),
            empty * d + d <= n * d,
            full * d + d <= n * d,
            forall|p: int|
                0 <= p < before.len() ==> #[trigger] rows@[p] == {
                    let c = col_of(p, d as int);
                    let x = before[full * d + c];
                    if row_of(p, d as int) == empty && c < j {
                        if c % 2 == 0 {
                            value_of(*up, x)
                        } else {
                            value_of(*down, x)
                        }
                    } else if row_of(p, d as int) == full && c < j {
                        if c % 2 == 0 {
                            value_of(*down, x)
                        } else {
                            value_of(*up, x)
                        }
                    } else {
                        before[p]
                    }
                },
    {
        proof {
            lemma_place(empty as int, j as int, d as int);
            lemma_place(full as int, j as int, d as int);
        }
        let ghost prev = rows@;
        let x: T = rows[full * d + j];
        proof {
            assert(x == before[full * d + j]);
        }
        let higher: T = up(x);
        let lower: T = down(x);
        if j % 2 == 0 {
            rows[empty * d + j] = higher;
            rows[full * d + j] = lower;
        } else {
            rows[empty * d + j] = lower;
            rows[full * d + j] = higher;
        }
        proof {
            assert forall|p: int| 0 <= p < before.len() implies #[trigger] rows@[p] == {
                let c = col_of(p, d as int);
                let x = before[full * d + c];
                if row_of(p, d as int) == empty && c < j + 1 {
                    if c % 2 == 0 {
                        value_of(*up, x)
                    } else {
                        value_of(*down, x)
                    }
                } else if row_of(p, d as int) == full && c < j + 1 {
                    if c % 2 == 0 {
                        value_of(*down, x)
                    } else {
                        value_of(*up, x)
                    }
                } else {
                    before[p]
                }
            } by {
                lemma_place_of(p, d as int, n as int);
                if p != empty * d + j && p != full * d + j {
                    assert(rows@[p] == prev[p]);
                }
            }
        }
    }
}

/// Column `j` of row `c` stands at `c * d + j`, and every element stands at one
/// such place.
pub proof fn law_places_are_rows_and_columns(c: int, j: int, d: int, p: int)
    requires
        0 < d,
    ensures
        0 <= c && 0 <= j < d ==> row_of(c * d + j, d) == c && col_of(c * d + j, d) == j,
        0 <= p ==> 0 <= col_of(p, d) < d && row_of(p, d) * d + col_of(p, d) == p,
{
    if 0 <= c && 0 <= j < d {
        lemma_place(c, j, d);
    }
    if 0 <= p {
        assert(p < (p + 1) * d) by (nonlinear_arith)
            requires
                0 <= p,
                0 < d,
        ;
        lemma_place_of(p, d, p + 1);
    }
}

/// Column `j` of the sum of a cluster adds up that column of the rows that are
/// assigned to it, in their order and from the start value on.
pub proof fn law_sums_fold_members<T>(
    plus: spec_fn(T, T) -> T,
    from: T,
    data: Seq<T>,
    assignments: Seq<u32>,
    d: int,
    c: int,
    j: int,
    n: nat,
)
    ensures
        column_sum(plus, from, data, assignments, d, c, j, n) == places(
            n,
            |i: int| assignments[i] == c,
        ).map_values(|i: int| data[i * d + j]).fold_left(from, plus),
    decreases n,
{
    let p = |i: int| assignments[i] == c;
    let x = |i: int| data[i * d + j];
    if n > 0 {
        let m = (n - 1) as nat;
        law_sums_fold_members(plus, from, data, assignments, d, c, j, m);
        lemma_places_step(m, p);
        let all = places(n, p).map_values(x);
        if p(m as int) {
            assert(all.drop_last() =~= places(m, p).map_values(x));
            assert(all.last() == data[m * d + j]);
        } else {
            assert(all =~= places(m, p).map_values(x));
        }
    } else {
        lemma_places_step(0, p);
        assert(places(0, p).map_values(x) =~= Seq::<T>::empty());
    }
}

/// With exact addition, column `j` of the sum of a cluster is its start value
/// plus the total of that column over the rows that are assigned to it.
pub proof fn law_sums_add_up<T>(
    num: spec_fn(T) -> int,
    plus: spec_fn(T, T) -> T,
    from: T,
    data: Seq<T>,
    assignments: Seq<u32>,
    d: int,
    c: int,
    j: int,
    n: nat,
)
    requires
        forall|a: T, b: T| num(#[trigger] plus(a, b)) == num(a) + num(b),
    ensures
        num(column_sum(plus, from, data, assignments, d, c, j, n)) == num(from) + total(
            n,
            |i: int|
                if assignments[i] == c {
                    num(data[i * d + j])
                } else {
                    0
                },
        ),
    decreases n,
{
    let term = |i: int|
        if assignments[i] == c {
            num(data[i * d + j])
        } else {
            0
        };
    if n > 0 {
        law_sums_add_up(num, plus, from, data, assignments, d, c, j, (n - 1) as nat);
        lemma_total_step((n - 1) as nat, term);
    } else {
        lemma_total_step(0, term);
    }
}

/// The sum of a column depends on that column of the members alone: two matrices
/// that agree there give one sum.
pub proof fn law_sums_depend_on_their_column<T>(
    plus: spec_fn(T, T) -> T,
    from: T,
    data: Seq<T>,
    other: Seq<T>,
    assignments: Seq<u32>,
    d: int,
    e: int,
    c: int,
    j: int,
    k: int,
    n: nat,
)
    requires
        forall|i: int|
            0 <= i < n && #[trigger] assignments[i] == c ==> data[i * d + j] == other[i * e + k],
    ensures
        column_sum(plus, from, data, assignments, d, c, j, n) == column_sum(
            plus,
            from,
            other,
            assignments,
            e,
            c,
            k,
            n,
        ),
    decreases n,
{
    if n > 0 {
        law_sums_depend_on_their_column(
            plus,
            from,
            data,
            other,
            assignments,
            d,
            e,
            c,
            j,
            k,
            (n - 1) as nat,
        );
        assert(assignments[n - 1] == assignments[n - 1]);
    }
}

} // verus!
