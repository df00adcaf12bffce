//! How far scores that are rounded on the way are from exact ones.
//!
//! Elements are mapped to integers: single-precision numbers, for one, are
//! multiples of a smallest one. Errors are counted in the same unit. With errors
//! of zero the laws are equations.
use vstd::prelude::*;
use vstd::arithmetic::power2::lemma2_to64;
use crate::arith::{lemma_total_congruent, lemma_total_step, total};
use crate::bits::{bit_at, le32_at, sub_one_shl};
use crate::functions::{value_of, value_of2};
use crate::quantization::naivesq::lemma_code_bound;
use crate::quantization::turboquant::bitpack::{law_unpack_inverts_pack, spelled};
use crate::quantization::turboquant::distance::{index_at, lemma_index_at, TurboQuantQuery};
use crate::quantization::turboquant::quantizer::encodes;
use crate::quantization::turboquant::record::{norm_start, s1_bits, stage2_start};
use crate::quantization::turboquant::scoring::{
    batch_sign, bounds_all, estimate_of, finished_score, is_stage1_of,
    law_batched_scores_are_estimates, lemma_batch_nibble, lemma_table_sum_congruent, row_sum,
    signed_sum, slot_score, slot_sum, table_sum, BatchedQueryLut, Stage1Partial,
};
use crate::quantization::turboquant::transposed::{is_batch_of, nibble_at};

verus! {

/// `a` and `b` differ by at most `e`.
pub open spec fn near(a: int, b: int, e: int) -> bool {
    -e <= a - b <= e
}

/// The sum of the first `n` terms.
pub open spec fn sum_to(term: spec_fn(int) -> int, n: nat) -> int
    decreases n,
{
    if n == 0 {
        0
    } else {
        sum_to(term, (n - 1) as nat) + term(n - 1)
    }
}

/// Each of the `n` additions of a sum of table entries errs by at most `e`.
pub open spec fn row_adds_within<T>(
    num: spec_fn(T) -> int,
    lut: Seq<T>,
    levels: int,
    at: spec_fn(int) -> u8,
    zero: T,
    plus: spec_fn(T, T) -> T,
    n: nat,
    e: int,
) -> bool {
    forall|m: nat|
        m < n ==> near(
            num(row_sum(lut, levels, at, zero, plus, m + 1)),
            num(#[trigger] row_sum(lut, levels, at, zero, plus, m)) + num(
                lut[m * levels + at(m as int)],
            ),
            e,
        )
}

/// A sum of table entries is near the sum of the terms that they stand for.
pub proof fn lemma_row_sum_near<T>(
    num: spec_fn(T) -> int,
    lut: Seq<T>,
    levels: int,
    at: spec_fn(int) -> u8,
    zero: T,
    plus: spec_fn(T, T) -> T,
    term: spec_fn(int) -> int,
    n: nat,
    r: int,
    e: int,
)
    requires
        num(zero) == 0,
        row_adds_within(num, lut, levels, at, zero, plus, n, e),
        forall|m: int|
            0 <= m < n ==> near(num(lut[m * levels + at(m)]), #[trigger] term(m), r),
    ensures
        near(
            num(row_sum(lut, levels, at, zero, plus, n)),
            sum_to(term, n),
            n * (r + e),
        ),
    decreases n,
{
    if n > 0 {
        let m = (n - 1) as nat;
        assert forall|k: nat| k < m implies near(
            num(row_sum(lut, levels, at, zero, plus, k + 1)),
            num(#[trigger] row_sum(lut, levels, at, zero, plus, k)) + num(
                lut[k * levels + at(k as int)],
            ),
            e,
        ) by {}
        lemma_row_sum_near(num, lut, levels, at, zero, plus, term, m, r, e);
        assert(near(
            num(row_sum(lut, levels, at, zero, plus, m + 1)),
            num(row_sum(lut, levels, at, zero, plus, m)) + num(lut[m * levels + at(m as int)]),
            e,
        ));
        assert(near(num(lut[m * levels + at(m as int)]), term(m as int), r));
        assert(n * (r + e) == m * (r + e) + (r + e)) by (nonlinear_arith)
            requires
                n == m + 1,
        ;
    } else {
        assert(0 * (r + e) == 0);
    }
}

/// The sum of rounded entries, times a step, is the sum of the rounded terms.
proof fn lemma_table_sum_terms(
    lut: Seq<i8>,
    at: spec_fn(int) -> u8,
    step: int,
    term: spec_fn(int) -> int,
    n: nat,
)
    requires
        forall|m: int| 0 <= m < n ==> #[trigger] term(m) == step * lut[16 * m + at(m)],
    ensures
        step * table_sum(lut, at, n) == sum_to(term, n),
    decreases n,
{
    if n > 0 {
        let m = (n - 1) as nat;
        lemma_table_sum_terms(lut, at, step, term, m);
        let a = table_sum(lut, at, m);
        let b = lut[16 * m + at(m as int)] as int;
        assert(term(m as int) == step * b);
        assert(step * (a + b) == step * a + step * b) by (nonlinear_arith);
    } else {
        assert(step * 0 == 0);
    }
}

/// A sum of rounded entries fits into thirty-two bits where there are few.
proof fn lemma_table_sum_fits(lut: Seq<i8>, at: spec_fn(int) -> u8, n: nat)
    ensures
        -128 * n <= table_sum(lut, at, n) <= 128 * n,
    decreases n,
{
    if n > 0 {
        lemma_table_sum_fits(lut, at, (n - 1) as nat);
    }
}

/// The score of a slot of a batch is near the estimate of its record. `num`
/// maps elements to integers and `step` is what one unit of a rounded entry
/// stands for; `tail` is what the norm and the signed sum add. Each rounded
/// entry errs by at most `r`, each addition of the estimate by `e`, and putting
/// the parts together by `f` for the slot and `g` for the record: then the two
/// differ by at most `dim * (r + e) + f + g`.
pub proof fn law_batched_scores_are_near_estimates<T: Copy, A, B, C, J>(
    query: TurboQuantQuery<T>,
    lut: BatchedQueryLut,
    batch: Seq<u8>,
    records: Seq<Seq<u8>>,
    slot: int,
    zero: T,
    plus: A,
    minus: B,
    combine: C,
    join: J,
    num: spec_fn(T) -> int,
    step: int,
    tail: spec_fn(u32, T) -> int,
    r: int,
    e: int,
    f: int,
    g: int,
) where
    A: Fn(T, T) -> T,
    B: Fn(T, T) -> T,
    C: Fn((i32, u32), T) -> T,
    J: Fn((T, u32), T) -> T,

    requires
        query.wf(),
        lut.wf(),
        (query.width() == 4 && query.levels() == 8) || (query.width() == 5 && query.levels()
            == 16),
        lut.dim() == query.dim(),
        query.projected().len() == query.dim(),
        0 <= slot < records.len() <= 16,
        is_batch_of(batch, records, query.dim() as int, query.width()),
        num(zero) == 0,
        forall|c: int, v: int|
            0 <= c < query.dim() && 0 <= v < query.levels() ==> near(
                num(#[trigger] query.lut()[c * query.levels() + v]),
                step * lut.lut()[16 * c + v],
                r,
            ),
        row_adds_within(
            num,
            query.lut(),
            query.levels() as int,
            |c: int| index_at(records[slot], s1_bits(query.width()), c),
            zero,
            |x: T, y: T| value_of2(plus, x, y),
            query.dim(),
            e,
        ),
        near(
            num(slot_score(lut, batch, query.projected(), zero, plus, minus, combine, slot)),
            step * table_sum(lut.lut(), |c: int| nibble_at(batch, c, slot), lut.dim()) + tail(
                le32_at(batch, 10 * lut.dim() + 4 * slot),
                slot_sum(batch, query.projected(), zero, plus, minus, slot),
            ),
            f,
        ),
        near(
            num(estimate_of(query, records[slot], zero, plus, minus, join)),
            num(
                row_sum(
                    query.lut(),
                    query.levels() as int,
                    |c: int| index_at(records[slot], s1_bits(query.width()), c),
                    zero,
                    |x: T, y: T| value_of2(plus, x, y),
                    query.dim(),
                ),
            ) + tail(
                le32_at(records[slot], norm_start(query.dim() as int, query.width())),
                signed_sum(
                    query.projected(),
                    |c: int|
                        bit_at(
                            records[slot],
                            8 * stage2_start(query.dim() as int, query.width()) + c,
                        ),
                    zero,
                    |x: T, y: T| value_of2(plus, x, y),
                    |x: T, y: T| value_of2(minus, x, y),
                    query.dim(),
                ),
            ),
            g,
        ),
    ensures
        near(
            num(slot_score(lut, batch, query.projected(), zero, plus, minus, combine, slot)),
            num(estimate_of(query, records[slot], zero, plus, minus, join)),
            query.dim() * (r + e) + f + g,
        ),
{
    let d = query.dim();
    let w = s1_bits(query.width());
    let k = query.levels() as int;
    let record = records[slot];
    let q = query.projected();
    let at = |c: int| index_at(record, w, c);
    let nib = |c: int| nibble_at(batch, c, slot);
    let p = |x: T, y: T| value_of2(plus, x, y);
    let m = |x: T, y: T| value_of2(minus, x, y);
    law_batched_scores_are_estimates(
        query.lut(),
        k,
        q,
        batch,
        records,
        slot,
        d,
        query.width(),
        zero,
        p,
        m,
    );
    assert(slot_sum(batch, q, zero, plus, minus, slot) == signed_sum(
        q,
        |c: int| batch_sign(batch, d as int, c, slot),
        zero,
        p,
        m,
        d,
    ));
    assert forall|c: int| 0 <= c < d implies #[trigger] nib(c) == at(c) && at(c) < k by {
        lemma_index_at(record, w, c);
        lemma_batch_nibble(batch, records, slot, d as int, query.width(), c, at(c));
        lemma_code_bound(record, c * w, w as u8, at(c));
        lemma2_to64();
    }
    lemma_table_sum_congruent(lut.lut(), nib, at, d);
    let term = |c: int| step * lut.lut()[16 * c + at(c)];
    assert forall|c: int| 0 <= c < d implies near(
        num(query.lut()[c * k + at(c)]),
        #[trigger] term(c),
        r,
    ) by {
        assert(nib(c) == at(c));
        let v = at(c) as int;
        assert(near(num(query.lut()[c * query.levels() + v]), step * lut.lut()[16 * c + v], r));
    }
    lemma_row_sum_near(num, query.lut(), k, at, zero, p, term, d, r, e);
    lemma_table_sum_terms(lut.lut(), at, step, term, d);
    let s = table_sum(lut.lut(), nib, d);
    assert(step * s == sum_to(term, d));
}

/// A batch bound dominates every score: where the bound of a slot is at least
/// the key of what its parts give with any sum that `reach` allows, and `reach`
/// allows the sums of all slots, no score of the batch has a larger key than the
/// largest bound.
pub proof fn law_batch_bound_dominates_scores<T: Copy, A, B, C, D, K>(
    lut: BatchedQueryLut,
    partial: Stage1Partial,
    batch: Seq<u8>,
    q: Seq<T>,
    zero: T,
    plus: A,
    minus: B,
    combine: C,
    bound: D,
    key: K,
    reach: spec_fn(T) -> bool,
    r: u32,
) where
    A: Fn(T, T) -> T,
    B: Fn(T, T) -> T,
    C: Fn((i32, u32), T) -> T,
    D: Fn(i32, u32) -> u32,
    K: Fn(T) -> u32,

    requires
        lut.wf(),
        q.len() == lut.dim(),
        is_stage1_of(partial, lut, batch),
        bounds_all(partial, bound, r),
        forall|slot: int, x: T|
            0 <= slot < 16 && reach(x) ==> value_of(
                key,
                #[trigger] value_of2(combine, (partial.stage1@[slot], partial.gammas@[slot]), x),
            ) <= value_of2(bound, partial.stage1@[slot], partial.gammas@[slot]),
        forall|slot: int|
            0 <= slot < 16 ==> reach(#[trigger] slot_sum(batch, q, zero, plus, minus, slot)),
    ensures
        forall|slot: int|
            0 <= slot < 16 ==> value_of(
                key,
                #[trigger] finished_score(partial, batch, q, zero, plus, minus, combine, slot),
            ) <= r,
        forall|slot: int|
            0 <= slot < 16 ==> value_of(
                key,
                #[trigger] slot_score(lut, batch, q, zero, plus, minus, combine, slot),
            ) <= r,
{
    assert forall|slot: int| 0 <= slot < 16 implies value_of(
        key,
        #[trigger] finished_score(partial, batch, q, zero, plus, minus, combine, slot),
    ) <= r by {
        let x = slot_sum(batch, q, zero, plus, minus, slot);
        assert(reach(x));
        assert(value_of2(bound, partial.stage1@[slot], partial.gammas@[slot]) <= r);
    }
    assert forall|slot: int| 0 <= slot < 16 implies value_of(
        key,
        #[trigger] slot_score(lut, batch, q, zero, plus, minus, combine, slot),
    ) <= r by {
        let nib = |c: int| nibble_at(batch, c, slot);
        lemma_table_sum_fits(lut.lut(), nib, lut.dim());
        assert(partial.stage1@[slot] == table_sum(lut.lut(), nib, lut.dim()));
        assert(partial.gammas@[slot] == le32_at(batch, 10 * lut.dim() + 4 * slot));
        assert(slot_score(lut, batch, q, zero, plus, minus, combine, slot) == finished_score(
            partial,
            batch,
            q,
            zero,
            plus,
            minus,
            combine,
            slot,
        ));
    }
}

/// Each of the `n` steps of a signed sum errs by at most `e`.
pub open spec fn signed_adds_within<T>(
    num: spec_fn(T) -> int,
    q: Seq<T>,
    sign: spec_fn(int) -> bool,
    zero: T,
    plus: spec_fn(T, T) -> T,
    minus: spec_fn(T, T) -> T,
    n: nat,
    e: int,
) -> bool {
    forall|m: nat|
        m < n ==> near(
            num(signed_sum(q, sign, zero, plus, minus, m + 1)),
            num(#[trigger] signed_sum(q, sign, zero, plus, minus, m)) + if sign(m as int) {
                num(q[m as int])
            } else {
                -num(q[m as int])
            },
            e,
        )
}

/// The sum of the magnitudes of the first `n` entries.
pub open spec fn magnitude<T>(num: spec_fn(T) -> int, q: Seq<T>, n: nat) -> int
    decreases n,
{
    if n == 0 {
        0
    } else {
        let x = num(q[n - 1]);
        magnitude(num, q, (n - 1) as nat) + if x >= 0 {
            x
        } else {
            -x
        }
    }
}

/// Whatever the signs, a signed sum does not exceed the sum of the magnitudes,
/// up to the errors of its additions.
pub proof fn law_signed_sum_is_within_magnitude<T>(
    num: spec_fn(T) -> int,
    q: Seq<T>,
    sign: spec_fn(int) -> bool,
    zero: T,
    plus: spec_fn(T, T) -> T,
    minus: spec_fn(T, T) -> T,
    n: nat,
    e: int,
)
    requires
        num(zero) == 0,
        signed_adds_within(num, q, sign, zero, plus, minus, n, e),
    ensures
        near(
            num(signed_sum(q, sign, zero, plus, minus, n)),
            0,
            magnitude(num, q, n) + n * e,
        ),
    decreases n,
{
    if n > 0 {
        let m = (n - 1) as nat;
        assert forall|k: nat| k < m implies near(
            num(signed_sum(q, sign, zero, plus, minus, k + 1)),
            num(#[trigger] signed_sum(q, sign, zero, plus, minus, k)) + if sign(k as int) {
                num(q[k as int])
            } else {
                -num(q[k as int])
            },
            e,
        ) by {}
        law_signed_sum_is_within_magnitude(num, q, sign, zero, plus, minus, m, e);
        let before = signed_sum(q, sign, zero, plus, minus, m);
        assert(near(
            num(signed_sum(q, sign, zero, plus, minus, m + 1)),
            num(before) + if sign(m as int) {
                num(q[m as int])
            } else {
                -num(q[m as int])
            },
            e,
        ));
        assert(n * e == m * e + e) by (nonlinear_arith)
            requires
                n == m + 1,
        ;
    } else {
        assert(0 * e == 0);
    }
}

/// With exact addition and subtraction, a signed sum adds the entries whose sign
/// is set and takes the others away.
pub proof fn law_signed_sums_are_exact<T>(
    num: spec_fn(T) -> int,
    q: Seq<T>,
    sign: spec_fn(int) -> bool,
    zero: T,
    plus: spec_fn(T, T) -> T,
    minus: spec_fn(T, T) -> T,
    n: nat,
)
    requires
        num(zero) == 0,
        forall|a: T, b: T| num(#[trigger] plus(a, b)) == num(a) + num(b),
        forall|a: T, b: T| num(#[trigger] minus(a, b)) == num(a) - num(b),
    ensures
        num(signed_sum(q, sign, zero, plus, minus, n)) == total(
            n,
            |c: int|
                if sign(c) {
                    num(q[c])
                } else {
                    -num(q[c])
                },
        ),
    decreases n,
{
    let term = |c: int|
        if sign(c) {
            num(q[c])
        } else {
            -num(q[c])
        };
    if n > 0 {
        law_signed_sums_are_exact(num, q, sign, zero, plus, minus, (n - 1) as nat);
        lemma_total_step((n - 1) as nat, term);
    } else {
        lemma_total_step(0, term);
    }
}

/// A signed sum goes through its entries in order, whatever addition and
/// subtraction do.
pub proof fn law_signed_sums_fold_entries<T>(
    q: Seq<T>,
    sign: spec_fn(int) -> bool,
    zero: T,
    plus: spec_fn(T, T) -> T,
    minus: spec_fn(T, T) -> T,
    n: nat,
)
    ensures
        signed_sum(q, sign, zero, plus, minus, n) == Seq::new(
            n,
            |c: int| (q[c], sign(c)),
        ).fold_left(
            zero,
            |s: T, x: (T, bool)|
                if x.1 {
                    plus(s, x.0)
                } else {
                    minus(s, x.0)
                },
        ),
    decreases n,
{
    if n > 0 {
        let m = (n - 1) as nat;
        law_signed_sums_fold_entries(q, sign, zero, plus, minus, m);
        let all = Seq::new(n, |c: int| (q[c], sign(c)));
        assert(all.drop_last() =~= Seq::new(m, |c: int| (q[c], sign(c))));
    }
}

/// With exact addition, a sum of table entries is the total of the entries that
/// the indices select, one of each row.
pub proof fn law_row_sums_are_exact<T>(
    num: spec_fn(T) -> int,
    lut: Seq<T>,
    levels: int,
    at: spec_fn(int) -> u8,
    zero: T,
    plus: spec_fn(T, T) -> T,
    n: nat,
)
    requires
        num(zero) == 0,
        forall|a: T, b: T| num(#[trigger] plus(a, b)) == num(a) + num(b),
    ensures
        num(row_sum(lut, levels, at, zero, plus, n)) == total(
            n,
            |c: int| num(lut[c * levels + at(c)]),
        ),
    decreases n,
{
    let term = |c: int| num(lut[c * levels + at(c)]);
    if n > 0 {
        law_row_sums_are_exact(num, lut, levels, at, zero, plus, (n - 1) as nat);
        lemma_total_step((n - 1) as nat, term);
    } else {
        lemma_total_step(0, term);
    }
}

/// A sum of table entries goes through the rows in order, whatever addition
/// does.
pub proof fn law_row_sums_fold_entries<T>(
    lut: Seq<T>,
    levels: int,
    at: spec_fn(int) -> u8,
    zero: T,
    plus: spec_fn(T, T) -> T,
    n: nat,
)
    ensures
        row_sum(lut, levels, at, zero, plus, n) == Seq::new(
            n,
            |c: int| lut[c * levels + at(c)],
        ).fold_left(zero, plus),
    decreases n,
{
    if n > 0 {
        let m = (n - 1) as nat;
        law_row_sums_fold_entries(lut, levels, at, zero, plus, m);
        let all = Seq::new(n, |c: int| lut[c * levels + at(c)]);
        assert(all.drop_last() =~= Seq::new(m, |c: int| lut[c * levels + at(c)]));
    }
}

/// A sum of rounded entries is the total of the entries that the indices select,
/// one of each sixteen.
pub proof fn law_table_sums_are_totals(lut: Seq<i8>, at: spec_fn(int) -> u8, n: nat)
    ensures
        table_sum(lut, at, n) == total(n, |c: int| lut[16 * c + at(c)] as int),
    decreases n,
{
    let term = |c: int| lut[16 * c + at(c)] as int;
    if n > 0 {
        law_table_sums_are_totals(lut, at, (n - 1) as nat);
        lemma_total_step((n - 1) as nat, term);
    } else {
        lemma_total_step(0, term);
    }
}

/// What the estimate of an encoded vector is made of: with exact addition and
/// subtraction, the total of the table entries that its indices select, its
/// norm, and the total of the projected query, each coordinate added where the
/// sign of the vector is set and taken away where it is not.
pub proof fn law_estimates_read_encoded_vectors<T: Copy, A, B, C>(
    num: spec_fn(T) -> int,
    query: TurboQuantQuery<T>,
    record: Seq<u8>,
    indices: Seq<u8>,
    signs: Seq<bool>,
    gamma: u32,
    zero: T,
    plus: A,
    minus: B,
    combine: C,
) -> (parts: (T, T)) where
    A: Fn(T, T) -> T,
    B: Fn(T, T) -> T,
    C: Fn((T, u32), T) -> T,

    requires
        query.wf(),
        indices.len() == query.dim(),
        signs.len() == query.dim(),
        forall|c: int|
            0 <= c < indices.len() ==> #[trigger] indices[c] <= sub_one_shl(
                (query.width() - 1) as u16,
            ),
        encodes(record, indices, signs, gamma, query.dim() as int, query.width()),
        num(zero) == 0,
        forall|a: T, b: T| num(#[trigger] value_of2(plus, a, b)) == num(a) + num(b),
        forall|a: T, b: T| num(#[trigger] value_of2(minus, a, b)) == num(a) - num(b),
    ensures
        estimate_of(query, record, zero, plus, minus, combine) == value_of2(
            combine,
            (parts.0, gamma),
            parts.1,
        ),
        num(parts.0) == total(
            query.dim(),
            |c: int| num(query.lut()[c * query.levels() + indices[c]]),
        ),
        num(parts.1) == total(
            query.dim(),
            |c: int|
                if signs[c] {
                    num(query.projected()[c])
                } else {
                    -num(query.projected()[c])
                },
        ),
{
    let d = query.dim();
    let w = s1_bits(query.width());
    let k = query.levels() as int;
    let at = |c: int| index_at(record, w, c);
    let sign = |c: int| bit_at(record, 8 * stage2_start(d as int, query.width()) + c);
    let p = |x: T, y: T| value_of2(plus, x, y);
    let m = |x: T, y: T| value_of2(minus, x, y);
    let x = row_sum(query.lut(), k, at, zero, p, d);
    let y = signed_sum(query.projected(), sign, zero, p, m, d);
    assert forall|a: T, b: T| num(#[trigger] p(a, b)) == num(a) + num(b) by {
        assert(p(a, b) == value_of2(plus, a, b));
    }
    assert forall|a: T, b: T| num(#[trigger] m(a, b)) == num(a) - num(b) by {
        assert(m(a, b) == value_of2(minus, a, b));
    }
    law_row_sums_are_exact(num, query.lut(), k, at, zero, p, d);
    law_signed_sums_are_exact(num, query.projected(), sign, zero, p, m, d);
    let read = Seq::new(d, at);
    assert forall|c: int| 0 <= c < d implies spelled(record, c * w, w, #[trigger] read[c]) by {
        lemma_index_at(record, w, c);
    }
    law_unpack_inverts_pack(record, indices, read, w as u8);
    let f = |c: int| num(query.lut()[c * k + at(c)]);
    let g = |c: int| num(query.lut()[c * query.levels() + indices[c]]);
    assert forall|c: int| 0 <= c < d implies #[trigger] f(c) == g(c) by {
        assert(read[c] == indices[c]);
    }
    lemma_total_congruent(d, f, g);
    let u = |c: int|
        if sign(c) {
            num(query.projected()[c])
        } else {
            -num(query.projected()[c])
        };
    let v = |c: int|
        if signs[c] {
            num(query.projected()[c])
        } else {
            -num(query.projected()[c])
        };
    assert forall|c: int| 0 <= c < d implies #[trigger] u(c) == v(c) by {
        assert(bit_at(record, 8 * stage2_start(d as int, query.width()) + c) == signs[c]);
    }
    lemma_total_congruent(d, u, v);
    (x, y)
}

} // verus!
