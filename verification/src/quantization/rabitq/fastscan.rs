//! Table-based dot products of binary codes, one at a time and thirty-two at
//! a time.
//!
//! Four dimensions share a table of sixteen sums, one for each pattern of
//! their bits. A byte of a code holds two patterns: the upper nibble for an
//! even table, the lower one for the next.
use vstd::prelude::*;
use crate::arith::{lemma_total_step, total};
use crate::bits::bit_at;
use crate::functions::{is_function, is_function2, value_of, value_of2};

verus! {

/// Codes per batch.
pub const BATCH_SIZE: usize = 32;

/// The dimension that a pattern's lowest set bit stands for.
const KPOS: [usize; 16] = [3, 3, 2, 3, 1, 3, 2, 3, 0, 3, 2, 3, 1, 3, 2, 3];

/// The largest power of two that divides `x`; zero for zero.
pub open spec fn low_bit(x: nat) -> nat
    decreases x,
{
    if x == 0 {
        0
    } else if x % 2 == 1 {
        1
    } else {
        2 * low_bit(x / 2)
    }
}

proof fn lemma_low_bit(x: u64)
    ensures
        x & (0u64.wrapping_sub(x)) == low_bit(x as nat),
        low_bit(x as nat) <= x,
    decreases x,
{
    if x == 0 {
        assert(0u64 & 0u64 == 0) by (bit_vector);
    } else {
        let y = 0u64.wrapping_sub(x);
        let h = x / 2;
        lemma_low_bit(h);
        if x % 2 == 1 {
            assert(x & y == 1) by (bit_vector)
                requires
                    y == 0xffff_ffff_ffff_ffff - x + 1,
                    x != 0,
                    x % 2 == 1,
            ;
        } else {
            let z = 0u64.wrapping_sub(h);
            assert(x & y == 2 * (h & z)) by (bit_vector)
                requires
                    y == 0xffff_ffff_ffff_ffff - x + 1,
                    z == 0xffff_ffff_ffff_ffff - h + 1,
                    x != 0,
                    h == x / 2,
                    x % 2 == 0,
            ;
        }
    }
}

/// The lowest set bit of `x`, as a number.
pub fn lowbit(x: usize) -> (r: usize)
    ensures
        r == low_bit(x as nat),
{
    let y: u64 = x as u64;
    proof {
        lemma_low_bit(y);
    }
    (y & (0u64.wrapping_sub(y))) as usize
}

/// Dimension `t` of four is in the pattern `j`.
pub open spec fn in_pattern(j: int, t: int) -> bool {
    if t == 0 {
        j / 8 % 2 == 1
    } else if t == 1 {
        j / 4 % 2 == 1
    } else if t == 2 {
        j / 2 % 2 == 1
    } else {
        j % 2 == 1
    }
}

/// The sum, from `zero` on and in order, of the coordinates of `q` that the
/// first `n` dimensions of pattern `j` select, where the four dimensions start
/// at `base`.
pub open spec fn pattern_sum<T>(
    plus: spec_fn(T, T) -> T,
    zero: T,
    q: Seq<T>,
    base: int,
    j: int,
    n: nat,
) -> T
    decreases n,
{
    if n == 0 {
        zero
    } else {
        let s = pattern_sum(plus, zero, q, base, j, (n - 1) as nat);
        if in_pattern(j, n - 1) {
            plus(s, q[base + n - 1])
        } else {
            s
        }
    }
}

proof fn lemma_pattern_step<T>(plus: spec_fn(T, T) -> T, zero: T, q: Seq<T>, base: int, j: int)
    requires
        1 <= j < 16,
    ensures
        0 <= j - low_bit(j as nat) < j,
        pattern_sum(plus, zero, q, base, j, 4) == plus(
            pattern_sum(plus, zero, q, base, j - low_bit(j as nat), 4),
            q[base + KPOS@[j]],
        ),
{
    reveal_with_fuel(pattern_sum, 5);
    reveal_with_fuel(low_bit, 5);
    if j % 2 == 1 {
        assert(low_bit(j as nat) == 1);
        assert(KPOS@[j] == 3);
    } else if j % 4 == 2 {
        assert(low_bit(j as nat) == 2);
        assert(KPOS@[j] == 2);
    } else if j % 8 == 4 {
        assert(low_bit(j as nat) == 4);
        assert(KPOS@[j] == 1);
    } else {
        assert(j == 8);
        assert(low_bit(j as nat) == 8);
        assert(KPOS@[j] == 0);
    }
}

/// The pattern that a packed code holds for table `t`.
pub open spec fn pattern_at(packed: Seq<u8>, t: int) -> u8 {
    if t % 2 == 0 {
        packed[t / 2] >> 4
    } else {
        packed[t / 2] & 0x0f
    }
}

/// The sum, in order, of the entries that a code selects from the first `n`
/// tables.
pub open spec fn entry_sum<T>(
    lut: Seq<T>,
    packed: Seq<u8>,
    zero: T,
    plus: spec_fn(T, T) -> T,
    n: nat,
) -> T
    decreases n,
{
    if n == 0 {
        zero
    } else {
        plus(
            entry_sum(lut, packed, zero, plus, (n - 1) as nat),
            lut[16 * (n - 1) + pattern_at(packed, n - 1)],
        )
    }
}

/// Tables of a query: sixteen sums for every four dimensions.
pub struct QueryLut<T> {
    lut: Vec<T>,
    num_codebooks: usize,
}

impl<T: Copy> QueryLut<T> {
    /// The entries of all tables, sixteen to a table.
    pub closed spec fn flat(&self) -> Seq<T> {
        self.lut@
    }

    pub closed spec fn tables(&self) -> nat {
        self.num_codebooks as nat
    }

    pub open spec fn wf(self) -> bool {
        self.flat().len() == 16 * self.tables()
    }

    /// Builds the tables: entry `j` of table `i` is the sum of the coordinates
    /// of dimensions `4 i .. 4 i + 4` that pattern `j` selects.
    pub fn new<F: Fn(T, T) -> T>(rotated_query: &[T], zero: T, plus: &F) -> (r: QueryLut<T>)
        requires
            rotated_query@.len() % 4 == 0,
            4 * rotated_query@.len() <= usize::MAX,
            is_function2(*plus),
        ensures
            r.wf(),
            r.tables() == rotated_query@.len() / 4,
            forall|i: int, j: int|
                0 <= i < r.tables() && 0 <= j < 16 ==> #[trigger] r.flat()[16 * i + j] == pattern_sum(
                    |a: T, b: T| value_of2(*plus, a, b),
                    zero,
                    rotated_query@,
                    4 * i,
                    j,
                    4,
                ),
    {
        let ghost q = rotated_query@;
        let ghost add_spec = |a: T, b: T| value_of2(*plus, a, b);
        let n: usize = rotated_query.len() / 4;
        let mut lut: Vec<T> = Vec::new();
        for i in 0..n
            invariant
                n == q.len() / 4,
                q == rotated_query@,
                4 * q.len() <= usize::MAX,
                q.len() <= usize::MAX,
                is_function2(*plus),
                add_spec == (|a: T, b: T| value_of2(*plus, a, b)),
                lut@.len() == 16 * i,
                forall|m: int, j: int|
                    0 <= m < i && 0 <= j < 16 ==> #[trigger] lut@[16 * m + j] == pattern_sum(
                        add_spec,
                        zero,
                        q,
                        4 * m,
                        j,
                        4,
                    ),
        {
            proof {
                reveal_with_fuel(pattern_sum, 5);
                assert(pattern_sum(add_spec, zero, q, 4 * i, 0, 4) == zero);
            }
            lut.push(zero);
            for j in 1..16usize
                invariant
                    i < n,
                    n == q.len() / 4,
                    q == rotated_query@,
                    4 * q.len() <= usize::MAX,
                    is_function2(*plus),
                    add_spec == (|a: T, b: T| value_of2(*plus, a, b)),
                    lut@.len() == 16 * i + j,
                    forall|m: int, u: int|
                        0 <= m < i && 0 <= u < 16 ==> #[trigger] lut@[16 * m + u] == pattern_sum(
                            add_spec,
                            zero,
                            q,
                            4 * m,
                            u,
                            4,
                        ),
                    forall|u: int|
                        0 <= u < j ==> #[trigger] lut@[16 * i + u] == pattern_sum(
                            add_spec,
                            zero,
                            q,
                            4 * i,
                            u,
                            4,
                        ),
            {
                proof {
                    lemma_pattern_step(add_spec, zero, q, 4 * i, j as int);
                    lemma_kpos(j as int);
                }
                let prev: usize = j - lowbit(j);
                let a: T = lut[16 * i + prev];
                let b: T = rotated_query[4 * i + KPOS[j]];
                let x: T = plus(a, b);
                proof {
                    assert(a == pattern_sum(add_spec, zero, q, 4 * i, prev as int, 4));
                    assert(x == add_spec(a, b));
                }
                lut.push(x);
            }
            proof {
                assert forall|m: int, u: int| 0 <= m < i + 1 && 0 <= u < 16 implies
                    #[trigger] lut@[16 * m + u] == pattern_sum(add_spec, zero, q, 4 * m, u, 4) by {
                    if m == i {
                        assert(lut@[16 * i + u] == pattern_sum(add_spec, zero, q, 4 * i, u, 4));
                    }
                }
            }
        }
        QueryLut { lut, num_codebooks: n }
    }

    /// The table entries that a packed code selects, in order: one for each
    /// table that the code reaches. Their sum is the dot product of the query
    /// and the code.
    pub fn binary_dot_terms(&self, packed_binary: &[u8]) -> (terms: Vec<T>)
        requires
            self.wf(),
            2 * packed_binary@.len() <= usize::MAX,
        ensures
            terms@.len() == if 2 * packed_binary@.len() <= self.tables() {
                2 * packed_binary@.len()
            } else {
                self.tables()
            },
            forall|t: int|
                0 <= t < terms@.len() ==> #[trigger] terms@[t] == self.flat()[16 * t + pattern_at(
                    packed_binary@,
                    t,
                )],
    {
        let mut terms: Vec<T> = Vec::new();
        let n: usize = if 2 * packed_binary.len() <= self.num_codebooks {
            2 * packed_binary.len()
        } else {
            self.num_codebooks
        };
        proof {
            assert(self.lut@.len() == self.lut.len());
        }
        for t in 0..n
            invariant
                self.wf(),
                self.flat().len() <= usize::MAX,
                n <= 2 * packed_binary@.len(),
                n <= self.num_codebooks,
                terms@.len() == t,
                forall|u: int|
                    0 <= u < t ==> #[trigger] terms@[u] == self.flat()[16 * u + pattern_at(
                        packed_binary@,
                        u,
                    )],
        {
            let byte: u8 = packed_binary[t / 2];
            let pattern: u8 = if t % 2 == 0 {
                byte >> 4
            } else {
                byte & 0x0f
            };
            proof {
                lemma_pattern_small(byte);
            }
            terms.push(self.lut[16 * t + pattern as usize]);
        }
        terms
    }

    /// The dot product of the query and a packed code: the sum of the table
    /// entries that the code selects.
    pub fn binary_dot<F: Fn(T, T) -> T>(&self, packed_binary: &[u8], zero: T, plus: &F) -> (sum: T)
        requires
            self.wf(),
            2 * packed_binary@.len() <= usize::MAX,
            is_function2(*plus),
        ensures
            sum == entry_sum(
                self.flat(),
                packed_binary@,
                zero,
                |a: T, b: T| value_of2(*plus, a, b),
                if 2 * packed_binary@.len() <= self.tables() {
                    2 * packed_binary@.len()
                } else {
                    self.tables()
                },
            ),
    {
        let terms = self.binary_dot_terms(packed_binary);
        let ghost p = |a: T, b: T| value_of2(*plus, a, b);
        let mut sum: T = zero;
        for t in 0..terms.len()
            invariant
                is_function2(*plus),
                p == (|a: T, b: T| value_of2(*plus, a, b)),
                forall|t: int|
                    0 <= t < terms@.len() ==> #[trigger] terms@[t] == self.flat()[16 * t + pattern_at(
                        packed_binary@,
                        t,
                    )],
                sum == entry_sum(self.flat(), packed_binary@, zero, p, t as nat),
        {
            let ghost before = sum;
            sum = plus(sum, terms[t]);
            assert(sum == p(before, terms@[t as int]));
        }
        sum
    }

    /// The tables with every entry rounded to a byte.
    pub fn lut_u8<R: Fn(T) -> u8>(&self, round: &R) -> (bytes: Vec<u8>)
        requires
            is_function(*round),
        ensures
            bytes@ == Seq::new(self.flat().len(), |i: int| value_of(*round, self.flat()[i])),
    {
        let mut bytes: Vec<u8> = Vec::new();
        for i in 0..self.lut.len()
            invariant
                is_function(*round),
                bytes@.len() == i,
                forall|j: int| 0 <= j < i ==> #[trigger] bytes@[j] == value_of(*round, self.flat()[j]),
        {
            let b: u8 = round(self.lut[i]);
            bytes.push(b);
        }
        proof {
            assert(bytes@ =~= Seq::new(self.flat().len(), |i: int| value_of(*round, self.flat()[i])));
        }
        bytes
    }

    /// The entries of all tables, one table after another.
    pub fn entries(&self) -> (r: &[T])
        ensures
            r@ == self.flat(),
    {
        self.lut.as_slice()
    }
}

proof fn lemma_kpos(j: int)
    requires
        0 <= j < 16,
    ensures
        KPOS@[j] < 4,
{
    assert(j == 0 || j == 1 || j == 2 || j == 3 || j == 4 || j == 5 || j == 6 || j == 7 || j == 8
        || j == 9 || j == 10 || j == 11 || j == 12 || j == 13 || j == 14 || j == 15);
}

proof fn lemma_pattern_small(byte: u8)
    ensures
        byte >> 4 < 16,
        byte & 0x0f < 16,
{
    assert(byte >> 4 < 16 && byte & 0x0f < 16) by (bit_vector);
}

/// Sum of the table entries, all taken as integers, for the first `n` tables.
pub open spec fn selected_sum(q: Seq<int>, packed: Seq<u8>, n: nat) -> int
    decreases n,
{
    if n == 0 {
        0
    } else {
        selected_sum(q, packed, (n - 1) as nat) + pattern_sum(
            |a: int, b: int| a + b,
            0,
            q,
            4 * (n - 1),
            pattern_at(packed, n - 1) as int,
            4,
        )
    }
}

/// Dot product of `q` with the first `n` bits of a packed code.
pub open spec fn bit_dot(q: Seq<int>, packed: Seq<u8>, n: nat) -> int
    decreases n,
{
    if n == 0 {
        0
    } else {
        bit_dot(q, packed, (n - 1) as nat) + if bit_at(packed, n - 1) {
            q[n - 1]
        } else {
            0
        }
    }
}

proof fn lemma_pattern_bits(packed: Seq<u8>, t: int, k: int)
    requires
        0 <= t,
        0 <= k < 4,
    ensures
        in_pattern(pattern_at(packed, t) as int, k) == bit_at(packed, 4 * t + k),
{
    let b = packed[t / 2];
    assert((4 * t + k) / 8 == t / 2);
    assert((4 * t + k) % 8 == 4 * (t % 2) + k);
    assert(((b >> 4) / 8 % 2 == 1) == (b >> 7 & 1 == 1) && ((b >> 4) / 4 % 2 == 1) == (b >> 6 & 1
        == 1) && ((b >> 4) / 2 % 2 == 1) == (b >> 5 & 1 == 1) && ((b >> 4) % 2 == 1) == (b >> 4 & 1
        == 1) && ((b & 0x0f) / 8 % 2 == 1) == (b >> 3 & 1 == 1) && ((b & 0x0f) / 4 % 2 == 1) == (b
        >> 2 & 1 == 1) && ((b & 0x0f) / 2 % 2 == 1) == (b >> 1 & 1 == 1) && ((b & 0x0f) % 2 == 1)
        == (b >> 0 & 1 == 1)) by (bit_vector);
    assert(k == 0 || k == 1 || k == 2 || k == 3);
}

/// In exact arithmetic the table entries that a code selects add up to the
/// dot product of the query and the bits of the code.
pub proof fn law_tables_give_the_dot_product(q: Seq<int>, packed: Seq<u8>, n: nat)
    ensures
        selected_sum(q, packed, n) == bit_dot(q, packed, 4 * n),
    decreases n,
{
    if n > 0 {
        law_tables_give_the_dot_product(q, packed, (n - 1) as nat);
        let t = n - 1;
        let j = pattern_at(packed, t) as int;
        lemma_pattern_bits(packed, t, 0);
        lemma_pattern_bits(packed, t, 1);
        lemma_pattern_bits(packed, t, 2);
        lemma_pattern_bits(packed, t, 3);
        reveal_with_fuel(pattern_sum, 5);
        reveal_with_fuel(bit_dot, 5);
    }
}

/// Column-major codes: column `col` of every code is contiguous, and the
/// places of codes that are missing are zero.
pub open spec fn is_transposed(out: Seq<u8>, codes: Seq<Seq<u8>>, dim_bytes: int) -> bool {
    forall|col: int, v: int|
        0 <= col < dim_bytes && 0 <= v < 32 ==> #[trigger] out[32 * col + v] == if v
            < codes.len() {
            codes[v][col]
        } else {
            0
        }
}

/// The bytes of each code.
pub open spec fn code_views(codes: Seq<&[u8]>) -> Seq<Seq<u8>> {
    Seq::new(codes.len(), |i: int| codes[i]@)
}

/// Transposes up to thirty-two codes of `dim_bytes` bytes.
pub fn pack_batch_simple(codes: &[&[u8]], dim_bytes: usize, output: &mut [u8])
    requires
        codes@.len() <= 32,
        32 * dim_bytes <= old(output)@.len(),
        forall|i: int| 0 <= i < codes@.len() ==> dim_bytes <= (#[trigger] codes@[i])@.len(),
    ensures
        final(output)@.len() == old(output)@.len(),
        is_transposed(final(output)@, code_views(codes@), dim_bytes as int),
        forall|p: int|
            32 * dim_bytes <= p < old(output)@.len() ==> #[trigger] final(output)@[p]
                == old(output)@[p],
{
    let ghost before = output@;
    let ghost views = code_views(codes@);
    proof {
        assert(output@.len() == output.len());
    }
    for col in 0..dim_bytes
        invariant
            views == code_views(codes@),
            codes@.len() <= 32,
            32 * dim_bytes <= before.len(),
            before.len() <= usize::MAX,
            output@.len() == before.len(),
            forall|i: int| 0 <= i < codes@.len() ==> dim_bytes <= (#[trigger] codes@[i])@.len(),
            is_transposed(output@, views, col as int),
            forall|p: int|
                32 * dim_bytes <= p < before.len() ==> #[trigger] output@[p] == before[p],
    {
        for v in 0..32usize
            invariant
                col < dim_bytes,
                views == code_views(codes@),
                codes@.len() <= 32,
                32 * dim_bytes <= before.len(),
                before.len() <= usize::MAX,
                output@.len() == before.len(),
                forall|i: int|
                    0 <= i < codes@.len() ==> dim_bytes <= (#[trigger] codes@[i])@.len(),
                is_transposed(output@, views, col as int),
                forall|u: int|
                    0 <= u < v ==> #[trigger] output@[32 * col + u] == if u < views.len() {
                        views[u][col as int]
                    } else {
                        0
                    },
                forall|p: int|
                    32 * dim_bytes <= p < before.len() ==> #[trigger] output@[p] == before[p],
        {
            let ghost prev = output@;
            let b: u8 = if v < codes.len() {
                codes[v][col]
            } else {
                0
            };
            output[col * BATCH_SIZE + v] = b;
            proof {
                assert forall|c: int, u: int| 0 <= c < col && 0 <= u < 32 implies
                    #[trigger] output@[32 * c + u] == if u < views.len() {
                    views[u][c]
                } else {
                    0
                } by {
                    assert(output@[32 * c + u] == prev[32 * c + u]);
                }
            }
        }
        proof {
            assert forall|c: int, u: int| 0 <= c < col + 1 && 0 <= u < 32 implies
                #[trigger] output@[32 * c + u] == if u < views.len() {
                views[u][c]
            } else {
                0
            } by {
                if c == col {
                    assert(output@[32 * col + u] == if u < views.len() {
                        views[u][col as int]
                    } else {
                        0
                    });
                }
            }
        }
    }
}

/// What one byte of a code adds: the entry of its upper nibble, and that of
/// its lower nibble where its table exists.
pub open spec fn byte_sum(lut: Seq<u8>, col: int, byte: u8) -> int {
    lut[32 * col + (byte >> 4)] + if 32 * col + 31 < lut.len() {
        lut[32 * col + 16 + (byte & 0x0f)] as int
    } else {
        0
    }
}

/// The table sum of a code over its first `n` bytes.
pub open spec fn code_sum(lut: Seq<u8>, code: spec_fn(int) -> u8, n: nat) -> int
    decreases n,
{
    if n == 0 {
        0
    } else {
        code_sum(lut, code, (n - 1) as nat) + byte_sum(lut, n - 1, code(n - 1))
    }
}

pub proof fn lemma_code_sum_congruent(
    lut: Seq<u8>,
    f: spec_fn(int) -> u8,
    g: spec_fn(int) -> u8,
    n: nat,
)
    requires
        forall|c: int| 0 <= c < n ==> #[trigger] f(c) == g(c),
    ensures
        code_sum(lut, f, n) == code_sum(lut, g, n),
    decreases n,
{
    if n > 0 {
        lemma_code_sum_congruent(lut, f, g, (n - 1) as nat);
        assert(f(n - 1) == g(n - 1));
    }
}

/// Table sums of thirty-two column-major codes at once.
pub fn accumulate_batch(
    packed_codes: &[u8],
    lut_u8: &[u8],
    dim_bytes: usize,
    results: &mut [u32; 32],
)
    requires
        32 * dim_bytes <= packed_codes@.len(),
        dim_bytes > 0 ==> 32 * dim_bytes - 16 <= lut_u8@.len(),
        510 * dim_bytes <= u32::MAX,
        32 * dim_bytes <= usize::MAX,
    ensures
        forall|v: int|
            0 <= v < 32 ==> #[trigger] final(results)@[v] == code_sum(
                lut_u8@,
                |col: int| packed_codes@[32 * col + v],
                dim_bytes as nat,
            ),
{
    let mut acc: [u32; 32] = [0u32; 32];
    for col in 0..dim_bytes
        invariant
            32 * dim_bytes <= packed_codes@.len(),
            32 * dim_bytes <= usize::MAX,
            dim_bytes > 0 ==> 32 * dim_bytes - 16 <= lut_u8@.len(),
            510 * dim_bytes <= u32::MAX,
            forall|v: int|
                0 <= v < 32 ==> #[trigger] acc@[v] == code_sum(
                    lut_u8@,
                    |c: int| packed_codes@[32 * c + v],
                    col as nat,
                ),
            forall|v: int| 0 <= v < 32 ==> #[trigger] acc@[v] <= 510 * col,
    {
        let ghost before = acc@;
        for v in 0..32usize
            invariant
                col < dim_bytes,
                32 * dim_bytes <= packed_codes@.len(),
                32 * dim_bytes <= usize::MAX,
                32 * dim_bytes - 16 <= lut_u8@.len(),
                510 * dim_bytes <= u32::MAX,
                before.len() == 32,
                forall|u: int| 0 <= u < 32 ==> #[trigger] before[u] <= 510 * col,
                forall|u: int| v <= u < 32 ==> #[trigger] acc@[u] == before[u],
                forall|u: int|
                    0 <= u < v ==> #[trigger] acc@[u] == before[u] + byte_sum(
                        lut_u8@,
                        col as int,
                        packed_codes@[32 * col + u],
                    ),
        {
            let byte: u8 = packed_codes[col * 32 + v];
            proof {
                lemma_pattern_small(byte);
                assert(acc@[v as int] == before[v as int]);
            }
            let hi: u32 = lut_u8[col * 32 + (byte >> 4) as usize] as u32;
            let lo: u32 = if col * 32 + 16 < lut_u8.len() && lut_u8.len() - (col * 32 + 16) >= 16 {
                lut_u8[col * 32 + 16 + (byte & 0x0f) as usize] as u32
            } else {
                0
            };
            acc[v] = acc[v] + hi + lo;
        }
        proof {
            assert forall|v: int| 0 <= v < 32 implies #[trigger] acc@[v] == code_sum(
                lut_u8@,
                |c: int| packed_codes@[32 * c + v],
                (col + 1) as nat,
            ) by {
                let f = |c: int| packed_codes@[32 * c + v];
                assert(f(col as int) == packed_codes@[32 * col + v]);
                assert(acc@[v] == before[v] + byte_sum(
                    lut_u8@,
                    col as int,
                    packed_codes@[32 * col + v],
                ));
                assert(before[v] == code_sum(lut_u8@, f, col as nat));
            }
            assert forall|v: int| 0 <= v < 32 implies #[trigger] acc@[v] <= 510 * (col + 1) by {
                assert(before[v] <= 510 * col);
            }
        }
    }
    *results = acc;
}

/// Accumulating a transposed batch gives each code the sum that it has by
/// itself.
pub proof fn law_batch_sums_match_single_codes(
    lut: Seq<u8>,
    out: Seq<u8>,
    codes: Seq<Seq<u8>>,
    dim_bytes: nat,
    v: int,
)
    requires
        is_transposed(out, codes, dim_bytes as int),
        0 <= v < codes.len() <= 32,
    ensures
        code_sum(lut, |col: int| out[32 * col + v], dim_bytes) == code_sum(
            lut,
            |col: int| codes[v][col],
            dim_bytes,
        ),
{
    let f = |col: int| out[32 * col + v];
    let g = |col: int| codes[v][col];
    assert forall|c: int| 0 <= c < dim_bytes implies #[trigger] f(c) == g(c) by {
        assert(out[32 * c + v] == codes[v][c]);
    }
    lemma_code_sum_congruent(lut, f, g, dim_bytes);
}

/// Bytes of a stored batch: the codes and three factors per code.
pub fn batch_data_size(dim_bytes: usize) -> (r: usize)
    requires
        32 * dim_bytes + 384 <= usize::MAX,
    ensures
        r == 32 * dim_bytes + 384,
{
    dim_bytes * BATCH_SIZE + BATCH_SIZE * 3 * 4
}

/// The two-bit code of dimension `d`: sixteen dimensions share four bytes, and
/// four dimensions that are four apart share a byte, lowest first.
pub open spec fn ex2_at(packed: Seq<u8>, d: int) -> u8 {
    let b = packed[d / 16 * 4 + d % 4];
    (b >> ((d % 16 / 4 * 2) as u8)) & 3
}

/// The six-bit code of dimension `d`: sixteen dimensions share twelve bytes.
/// The lower four bits are nibbles of the first eight bytes, two bytes for four
/// dimensions that are four apart; the upper two bits are packed like two-bit
/// codes in the last four.
pub open spec fn ex6_at(packed: Seq<u8>, d: int) -> u8 {
    let base = d / 16 * 12;
    let m = d % 16 / 4;
    let low = (packed[base + d % 4 * 2 + m / 2] >> ((m % 2 * 4) as u8)) & 0x0f;
    let high = (packed[base + 8 + d % 4] >> ((m * 2) as u8)) & 3;
    low | (high << 4)
}

/// The two-bit codes of the dimensions in whole groups of sixteen.
pub fn unpack_ex2(packed: &[u8], padded_dim: usize) -> (codes: Vec<u8>)
    requires
        padded_dim / 16 * 4 <= packed@.len(),
    ensures
        codes@.len() == padded_dim / 16 * 16,
        forall|d: int| 0 <= d < codes@.len() ==> #[trigger] codes@[d] == ex2_at(packed@, d),
{
    let n: usize = padded_dim / 16 * 16;
    let mut codes: Vec<u8> = Vec::new();
    for d in 0..n
        invariant
            n == padded_dim / 16 * 16,
            padded_dim / 16 * 4 <= packed@.len(),
            codes@.len() == d,
            forall|c: int| 0 <= c < d ==> #[trigger] codes@[c] == ex2_at(packed@, c),
    {
        let b: u8 = packed[d / 16 * 4 + d % 4];
        let shift: u8 = (d % 16 / 4 * 2) as u8;
        codes.push((b >> shift) & 3);
    }
    codes
}

/// The six-bit codes of the dimensions in whole groups of sixteen.
pub fn unpack_ex6(packed: &[u8], padded_dim: usize) -> (codes: Vec<u8>)
    requires
        padded_dim / 16 * 12 <= packed@.len(),
    ensures
        codes@.len() == padded_dim / 16 * 16,
        forall|d: int| 0 <= d < codes@.len() ==> #[trigger] codes@[d] == ex6_at(packed@, d),
{
    let n: usize = padded_dim / 16 * 16;
    let mut codes: Vec<u8> = Vec::new();
    for d in 0..n
        invariant
            n == padded_dim / 16 * 16,
            padded_dim / 16 * 12 <= packed@.len(),
            codes@.len() == d,
            forall|c: int| 0 <= c < d ==> #[trigger] codes@[c] == ex6_at(packed@, c),
    {
        let base: usize = d / 16 * 12;
        let m: usize = d % 16 / 4;
        let low: u8 = (packed[base + d % 4 * 2 + m / 2] >> ((m % 2 * 4) as u8)) & 0x0f;
        let high: u8 = (packed[base + 8 + d % 4] >> ((m * 2) as u8)) & 3;
        codes.push(low | (high << 4));
    }
    codes
}

/// With exact addition, the table entry of a pattern is the sum of the
/// coordinates that its bits select, the highest bit first.
pub proof fn law_table_entries_are_exact<T>(
    num: spec_fn(T) -> int,
    plus: spec_fn(T, T) -> T,
    zero: T,
    q: Seq<T>,
    base: int,
    j: int,
)
    requires
        num(zero) == 0,
        forall|a: T, b: T| num(#[trigger] plus(a, b)) == num(a) + num(b),
    ensures
        num(pattern_sum(plus, zero, q, base, j, 4)) == (j / 8 % 2) * num(q[base]) + (j / 4 % 2)
            * num(q[base + 1]) + (j / 2 % 2) * num(q[base + 2]) + (j % 2) * num(q[base + 3]),
{
    reveal_with_fuel(pattern_sum, 5);
    lemma_bit_times(j / 8 % 2, num(q[base]));
    lemma_bit_times(j / 4 % 2, num(q[base + 1]));
    lemma_bit_times(j / 2 % 2, num(q[base + 2]));
    lemma_bit_times(j % 2, num(q[base + 3]));
}

proof fn lemma_bit_times(b: int, x: int)
    ensures
        b == 0 ==> b * x == 0,
        b == 1 ==> b * x == x,
{
}

/// With exact addition, the score of a binary code is its dot product with the
/// query: the total of the coordinates whose bit is set.
pub proof fn law_table_scores_are_dot_products<T>(
    num: spec_fn(T) -> int,
    lut: Seq<T>,
    q: Seq<T>,
    packed: Seq<u8>,
    zero: T,
    plus: spec_fn(T, T) -> T,
    n: nat,
)
    requires
        num(zero) == 0,
        forall|a: T, b: T| num(#[trigger] plus(a, b)) == num(a) + num(b),
        forall|i: int, j: int|
            0 <= i < n && 0 <= j < 16 ==> #[trigger] lut[16 * i + j] == pattern_sum(
                plus,
                zero,
                q,
                4 * i,
                j,
                4,
            ),
    ensures
        num(entry_sum(lut, packed, zero, plus, n)) == total(
            4 * n,
            |d: int|
                if bit_at(packed, d) {
                    num(q[d])
                } else {
                    0
                },
        ),
    decreases n,
{
    let term = |d: int|
        if bit_at(packed, d) {
            num(q[d])
        } else {
            0
        };
    if n == 0 {
        lemma_total_step(0, term);
    } else {
        let t = n - 1;
        law_table_scores_are_dot_products(num, lut, q, packed, zero, plus, t as nat);
        let j = pattern_at(packed, t) as int;
        lemma_pattern_bits(packed, t, 0);
        lemma_pattern_bits(packed, t, 1);
        lemma_pattern_bits(packed, t, 2);
        lemma_pattern_bits(packed, t, 3);
        lemma_nibbles(packed[t / 2]);
        assert(0 <= j < 16);
        assert(lut[16 * t + j] == pattern_sum(plus, zero, q, 4 * t, j, 4));
        reveal_with_fuel(pattern_sum, 5);
        lemma_total_step((4 * t) as nat, term);
        lemma_total_step((4 * t + 1) as nat, term);
        lemma_total_step((4 * t + 2) as nat, term);
        lemma_total_step((4 * t + 3) as nat, term);
    }
}

/// A byte is sixteen times its upper nibble and its lower one.
pub proof fn lemma_nibbles(b: u8)
    ensures
        b >> 4 == b / 16,
        b & 0x0f == b % 16,
{
    assert(b >> 4 == b / 16 && b & 0x0f == b % 16) by (bit_vector);
}

/// The dot product with a packed code is the total of the coordinates whose bit
/// is set.
pub proof fn law_bit_dots_are_totals(q: Seq<int>, packed: Seq<u8>, n: nat)
    ensures
        bit_dot(q, packed, n) == total(
            n,
            |d: int|
                if bit_at(packed, d) {
                    q[d]
                } else {
                    0
                },
        ),
    decreases n,
{
    let term = |d: int|
        if bit_at(packed, d) {
            q[d]
        } else {
            0
        };
    if n > 0 {
        law_bit_dots_are_totals(q, packed, (n - 1) as nat);
        lemma_total_step((n - 1) as nat, term);
    } else {
        lemma_total_step(0, term);
    }
}

/// The sum of a code over rounded tables adds for each byte the entry of its
/// upper nibble in an even table, and that of its lower nibble in the next where
/// there is one.
pub proof fn law_code_sums_are_totals(lut: Seq<u8>, code: spec_fn(int) -> u8, n: nat)
    ensures
        code_sum(lut, code, n) == total(
            n,
            |c: int|
                lut[16 * (2 * c) + code(c) / 16] + if 16 * (2 * c + 1) + 15 < lut.len() {
                    lut[16 * (2 * c + 1) + code(c) % 16] as int
                } else {
                    0
                },
        ),
    decreases n,
{
    let term = |c: int|
        lut[16 * (2 * c) + code(c) / 16] + if 16 * (2 * c + 1) + 15 < lut.len() {
            lut[16 * (2 * c + 1) + code(c) % 16] as int
        } else {
            0
        };
    if n > 0 {
        law_code_sums_are_totals(lut, code, (n - 1) as nat);
        lemma_total_step((n - 1) as nat, term);
        lemma_nibbles(code(n - 1));
    } else {
        lemma_total_step(0, term);
    }
}

/// The low bit of a number is a power of two that divides it, an odd number of
/// times.
pub proof fn law_low_bit_divides_oddly(x: nat) -> (shift: nat)
    requires
        x > 0,
    ensures
        low_bit(x) == vstd::arithmetic::power2::pow2(shift),
        exists|m: nat| x == low_bit(x) * #[trigger] (2 * m + 1),
    decreases x,
{
    if x % 2 == 1 {
        vstd::arithmetic::power2::lemma2_to64();
        let m = x / 2;
        assert(low_bit(x) == 1);
        assert(x == 1 * (2 * m + 1));
        assert(x == low_bit(x) * (2 * m + 1));
        0
    } else {
        let s = law_low_bit_divides_oddly(x / 2);
        vstd::arithmetic::power2::lemma_pow2_unfold(s + 1);
        let h = low_bit(x / 2);
        let m = choose|m: nat| x / 2 == h * #[trigger] (2 * m + 1);
        assert(2 * (h * (2 * m + 1)) == (2 * h) * (2 * m + 1)) by (nonlinear_arith);
        assert(low_bit(x) == 2 * h);
        assert(x == 2 * (x / 2));
        assert(x == (2 * h) * (2 * m + 1));
        assert(x == low_bit(x) * (2 * m + 1));
        s + 1
    }
}

/// Two-bit codes make up their bytes: a byte holds those of four dimensions that
/// are four apart, the first one lowest.
pub proof fn law_two_bit_codes_make_up_their_bytes(packed: Seq<u8>, group: int, r: int)
    requires
        0 <= group,
        0 <= r < 4,
    ensures
        packed[4 * group + r] == ex2_at(packed, 16 * group + r) + 4 * ex2_at(
            packed,
            16 * group + 4 + r,
        ) + 16 * ex2_at(packed, 16 * group + 8 + r) + 64 * ex2_at(packed, 16 * group + 12 + r),
{
    let b = packed[4 * group + r];
    assert(b == (b >> 0u8 & 3) + 4 * (b >> 2u8 & 3) + 16 * (b >> 4u8 & 3) + 64 * (b >> 6u8 & 3))
        by (bit_vector);
    assert(forall|m: int| 0 <= m < 4 ==> (16 * group + 4 * m + r) / 16 == group && #[trigger] (16
        * group + 4 * m + r) % 4 == r && (16 * group + 4 * m + r) % 16 / 4 == m);
    assert((16 * group + 4 * 0 + r) % 4 == r);
    assert((16 * group + 4 * 1 + r) % 4 == r);
    assert((16 * group + 4 * 2 + r) % 4 == r);
    assert((16 * group + 4 * 3 + r) % 4 == r);
}

/// Six-bit codes make up their bytes: the lower four bits of two dimensions that
/// are four apart share one of the first eight bytes of a group, the upper two
/// bits of four dimensions one of the last four.
pub proof fn law_six_bit_codes_make_up_their_bytes(packed: Seq<u8>, group: int, r: int)
    requires
        0 <= group,
        0 <= r < 4,
    ensures
        forall|m: int|
            0 <= m < 4 ==> #[trigger] ex6_at(packed, 16 * group + 4 * m + r) < 64,
        packed[12 * group + 2 * r] == ex6_at(packed, 16 * group + 4 * 0 + r) % 16 + 16 * (ex6_at(
            packed,
            16 * group + 4 * 1 + r,
        ) % 16),
        packed[12 * group + 2 * r + 1] == ex6_at(packed, 16 * group + 4 * 2 + r) % 16 + 16 * (
        ex6_at(packed, 16 * group + 4 * 3 + r) % 16),
        packed[12 * group + 8 + r] == ex6_at(packed, 16 * group + 4 * 0 + r) / 16 + 4 * (ex6_at(
            packed,
            16 * group + 4 * 1 + r,
        ) / 16) + 16 * (ex6_at(packed, 16 * group + 4 * 2 + r) / 16) + 64 * (ex6_at(
            packed,
            16 * group + 4 * 3 + r,
        ) / 16),
{
    let a = packed[12 * group + 2 * r];
    let b = packed[12 * group + 2 * r + 1];
    let h = packed[12 * group + 8 + r];
    let c0 = ex6_at(packed, 16 * group + 4 * 0 + r);
    let c1 = ex6_at(packed, 16 * group + 4 * 1 + r);
    let c2 = ex6_at(packed, 16 * group + 4 * 2 + r);
    let c3 = ex6_at(packed, 16 * group + 4 * 3 + r);
    lemma_six_bits(a, b, h);
    lemma_six_places(group, 0, r);
    lemma_six_places(group, 1, r);
    lemma_six_places(group, 2, r);
    lemma_six_places(group, 3, r);
    assert(c0 == (a >> 0u8 & 0x0f) | ((h >> 0u8 & 3) << 4));
    assert(c1 == (a >> 4u8 & 0x0f) | ((h >> 2u8 & 3) << 4));
    assert(c2 == (b >> 0u8 & 0x0f) | ((h >> 4u8 & 3) << 4));
    assert(c3 == (b >> 4u8 & 0x0f) | ((h >> 6u8 & 3) << 4));
    assert forall|m: int| 0 <= m < 4 implies #[trigger] ex6_at(packed, 16 * group + 4 * m + r)
        < 64 by {
        assert(m == 0 || m == 1 || m == 2 || m == 3);
    }
}

proof fn lemma_six_places(group: int, m: int, r: int)
    requires
        0 <= group,
        0 <= m < 4,
        0 <= r < 4,
    ensures
        (16 * group + 4 * m + r) / 16 == group,
        (16 * group + 4 * m + r) % 16 / 4 == m,
        (16 * group + 4 * m + r) % 4 == r,
{
}

proof fn lemma_six_bits(a: u8, b: u8, h: u8)
    ensures
        ({
            let c0 = (a >> 0u8 & 0x0f) | ((h >> 0u8 & 3) << 4);
            let c1 = (a >> 4u8 & 0x0f) | ((h >> 2u8 & 3) << 4);
            let c2 = (b >> 0u8 & 0x0f) | ((h >> 4u8 & 3) << 4);
            let c3 = (b >> 4u8 & 0x0f) | ((h >> 6u8 & 3) << 4);
            &&& c0 < 64 && c1 < 64 && c2 < 64 && c3 < 64
            &&& a == c0 % 16 + 16 * (c1 % 16)
            &&& b == c2 % 16 + 16 * (c3 % 16)
            &&& h == c0 / 16 + 4 * (c1 / 16) + 16 * (c2 / 16) + 64 * (c3 / 16)
        }),
{
    assert({
        let c0 = (a >> 0u8 & 0x0f) | ((h >> 0u8 & 3) << 4);
        let c1 = (a >> 4u8 & 0x0f) | ((h >> 2u8 & 3) << 4);
        let c2 = (b >> 0u8 & 0x0f) | ((h >> 4u8 & 3) << 4);
        let c3 = (b >> 4u8 & 0x0f) | ((h >> 6u8 & 3) << 4);
        &&& c0 < 64 && c1 < 64 && c2 < 64 && c3 < 64
        &&& a == c0 % 16 + 16 * (c1 % 16)
        &&& b == c2 % 16 + 16 * (c3 % 16)
        &&& h == c0 / 16 + 4 * (c1 / 16) + 16 * (c2 / 16) + 64 * (c3 / 16)
    }) by (bit_vector);
}

} // verus!
