//! Scalar codes of one to eight bits per dimension.
use vstd::prelude::*;
use crate::arith::smaller;
use crate::bits::{bit_at, bit_of, bytes_for, collect, lemma_collect_bits, sub_one_shl};
use crate::functions::{is_function, is_function2, value_of, value_of2};
use crate::metrics::{are_top, top_k_by_score, ScoredDoc};
use crate::quantization::turboquant::accuracy::{
    lemma_row_sum_near, near, row_adds_within, sum_to,
};
use crate::quantization::turboquant::bitpack::{
    clear_bits, law_unpack_inverts_pack, pack, packed_byte_size, packs, spelled,
};
use crate::quantization::turboquant::distance::{index_at, lemma_index_at};
use crate::quantization::turboquant::quantizer::lemma_spelled_once;
use crate::quantization::turboquant::scoring::row_sum;

verus! {

/// Packed codes of one collection.
pub struct NaiveSqQuantizer {
    pub bits: u8,
    pub dims: usize,
    pub codes: Vec<Vec<u8>>,
}

/// Why vectors cannot be encoded.
#[derive(Debug, Clone, Copy, PartialEq, Eq, Structural)]
pub enum NaiveSqError {
    UnsupportedBits,
    DimensionMismatch,
}

impl NaiveSqError {
    /// The error in words.
    pub fn message(&self) -> (r: &'static str)
        ensures
            *self == NaiveSqError::UnsupportedBits ==> r@ == "naivesq supports bits 1..=8"@,
            *self == NaiveSqError::DimensionMismatch ==> r@ == "dimension mismatch"@,
    {
        match self {
            NaiveSqError::UnsupportedBits => "naivesq supports bits 1..=8",
            NaiveSqError::DimensionMismatch => "dimension mismatch",
        }
    }
}

/// Every row has `dims` entries.
pub open spec fn all_have(rows: Seq<Vec<u8>>, dims: usize) -> bool {
    forall|i: int| 0 <= i < rows.len() ==> (#[trigger] rows[i])@.len() == dims
}

/// `packed` are the codes `row`, bit by bit, in as many bytes as they need.
pub open spec fn is_packed(packed: Seq<u8>, row: Seq<u8>, bits: u8) -> bool {
    &&& packed.len() == bytes_for(row.len() * bits)
    &&& packs(packed, row, row.len() as int, bits as int)
    &&& clear_bits(packed, row.len() * bits, 8 * (packed.len() as int))
}

impl NaiveSqQuantizer {
    pub fn new(dims: usize, bits: u8) -> (r: NaiveSqQuantizer)
        ensures
            r.dims == dims,
            r.bits == bits,
            r.codes@.len() == 0,
    {
        NaiveSqQuantizer { bits, dims, codes: Vec::new() }
    }

    /// Takes in the codes of a collection, one row per vector and one code per
    /// dimension.
    pub fn encode(&mut self, rows: &[Vec<u8>]) -> (r: Result<(), NaiveSqError>)
        requires
            old(self).dims * old(self).bits <= usize::MAX,
        ensures
            !(1 <= old(self).bits <= 8) ==> r == Err::<(), NaiveSqError>(
                NaiveSqError::UnsupportedBits,
            ),
            1 <= old(self).bits <= 8 && !all_have(rows@, old(self).dims) ==> r == Err::<
                (),
                NaiveSqError,
            >(NaiveSqError::DimensionMismatch),
            1 <= old(self).bits <= 8 && all_have(rows@, old(self).dims) ==> r is Ok,
            r is Err ==> *final(self) == *old(self),
            r is Ok ==> {
                &&& final(self).codes@.len() == rows@.len()
                &&& forall|i: int|
                    0 <= i < rows@.len() ==> is_packed(
                        (#[trigger] final(self).codes@[i])@,
                        rows@[i]@,
                        old(self).bits,
                    )
            },
            final(self).dims == old(self).dims,
            final(self).bits == old(self).bits,
    {
        if self.bits < 1 || self.bits > 8 {
            return Err(NaiveSqError::UnsupportedBits);
        }
        for i in 0..rows.len()
            invariant
                forall|j: int| 0 <= j < i ==> (#[trigger] rows@[j])@.len() == self.dims,
                *self == *old(self),
                1 <= self.bits <= 8,
        {
            if rows[i].len() != self.dims {
                return Err(NaiveSqError::DimensionMismatch);
            }
        }
        let mut codes: Vec<Vec<u8>> = Vec::new();
        for i in 0..rows.len()
            invariant
                *self == *old(self),
                1 <= self.bits <= 8,
                self.dims * self.bits <= usize::MAX,
                all_have(rows@, self.dims),
                codes@.len() == i,
                forall|j: int|
                    0 <= j < i ==> is_packed(
                        (#[trigger] codes@[j])@,
                        rows@[j]@,
                        self.bits,
                    ),
        {
            proof {
                assert(rows@[i as int]@.len() == self.dims);
            }
            codes.push(pack(rows[i].as_slice(), self.bits));
        }
        self.codes = codes;
        Ok(())
    }

    /// Bytes of a packed vector.
    pub fn bytes_per_vector(&self) -> (r: usize)
        requires
            self.dims * self.bits <= usize::MAX,
        ensures
            r == bytes_for(self.dims * self.bits),
    {
        packed_byte_size(self.dims, self.bits)
    }
}

/// The code of one dimension of a packed vector.
pub fn unpack_code(record: &[u8], dim: usize, bits: u8) -> (x: u8)
    requires
        1 <= bits <= 8,
        dim * bits + bits <= 8 * record@.len(),
        8 * record@.len() <= usize::MAX,
    ensures
        spelled(record@, dim * bits, bits as int, x),
{
    let w16: u16 = bits as u16;
    let ghost w = bits as int;
    proof {
        assert(0 <= dim * bits) by (nonlinear_arith);
        assert((1u16 << w16) >= 1 && (1u16 << w16) <= 256) by (bit_vector)
            requires
                w16 <= 8,
        ;
    }
    let bit_offset: usize = dim * bits as usize;
    let byte_idx: usize = bit_offset / 8;
    let bit_idx: u16 = (bit_offset % 8) as u16;
    let hi: u8 = record[byte_idx];
    let lo: u8 = if byte_idx + 1 < record.len() {
        record[byte_idx + 1]
    } else {
        0
    };
    let combined: u16 = ((hi as u16) << 8) | (lo as u16);
    let shift: u16 = 16 - w16 - bit_idx;
    let mask: u16 = (1u16 << w16) - 1;
    let x: u8 = #[verifier::truncate] (((combined >> shift) & mask) as u8);
    proof {
        assert(x == collect(hi, lo, w16, bit_idx));
        let p = dim * bits;
        assert forall|j: int| 0 <= j < 8 implies #[trigger] bit_of(x, j) == (j >= 8 - w && bit_at(
            record@,
            p + j - (8 - w),
        )) by {
            lemma_collect_bits(hi, lo, w16, bit_idx, j);
        }
    }
    x
}

/// The eight five-bit codes of five bytes.
fn group_codes(record: &[u8], byte: usize) -> (codes: [u8; 8])
    requires
        byte + 5 <= record@.len(),
        8 * record@.len() <= usize::MAX,
    ensures
        forall|i: int|
            0 <= i < 8 ==> spelled(record@, 8 * byte + 5 * i, 5, #[trigger] codes@[i]),
{
    let b0: u64 = record[byte] as u64;
    let b1: u64 = record[byte + 1] as u64;
    let b2: u64 = record[byte + 2] as u64;
    let b3: u64 = record[byte + 3] as u64;
    let b4: u64 = record[byte + 4] as u64;
    let packed: u64 = (b0 << 32) | (b1 << 24) | (b2 << 16) | (b3 << 8) | b4;
    let mut codes: [u8; 8] = [0u8; 8];
    for i in 0..8usize
        invariant
            byte + 5 <= record@.len(),
            b0 == record@[byte as int],
            b1 == record@[byte + 1],
            b2 == record@[byte + 2],
            b3 == record@[byte + 3],
            b4 == record@[byte + 4],
            packed == (b0 << 32) | (b1 << 24) | (b2 << 16) | (b3 << 8) | b4,
            forall|m: int|
                0 <= m < i ==> spelled(record@, 8 * byte + 5 * m, 5, #[trigger] codes@[m]),
    {
        let s: u64 = 35 - 5 * (i as u64);
        let x: u8 = #[verifier::truncate] (((packed >> s) & 0x1f) as u8);
        proof {
            assert forall|j: int| 0 <= j < 8 implies #[trigger] bit_of(x, j) == (j >= 3 && bit_at(
                record@,
                8 * byte + 5 * i + j - 3,
            )) by {
                lemma_group_bit(b0, b1, b2, b3, b4, packed, s, x, i as u64, j as u64);
                let q = 5 * i + j - 3;
                if j >= 3 {
                    assert((8 * byte + q) / 8 == byte + q / 8);
                    assert((8 * byte + q) % 8 == q % 8);
                }
            }
        }
        codes[i] = x;
    }
    codes
}

/// Bit `j` of code `i` among the forty bits of five bytes.
proof fn lemma_group_bit(
    b0: u64,
    b1: u64,
    b2: u64,
    b3: u64,
    b4: u64,
    packed: u64,
    s: u64,
    x: u8,
    i: u64,
    j: u64,
)
    requires
        b0 < 256,
        b1 < 256,
        b2 < 256,
        b3 < 256,
        b4 < 256,
        i < 8,
        j < 8,
        packed == (b0 << 32) | (b1 << 24) | (b2 << 16) | (b3 << 8) | b4,
        s == 35 - 5 * i,
        x == ((packed >> s) & 0x1f) as u8,
    ensures
        j < 3 ==> !bit_of(x, j as int),
        j >= 3 ==> {
            let q = 5 * i + j - 3;
            bit_of(x, j as int) == bit_of(
                (if q / 8 == 0 {
                    b0
                } else if q / 8 == 1 {
                    b1
                } else if q / 8 == 2 {
                    b2
                } else if q / 8 == 3 {
                    b3
                } else {
                    b4
                }) as u8,
                q % 8,
            )
        },
{
    let t = (7 - j) as u8;
    if j < 3 {
        assert((x >> t) & 1 == 0) by (bit_vector)
            requires
                x == ((packed >> s) & 0x1f) as u8,
                5 <= t < 8,
        ;
    } else {
        let q = (5 * i + j - 3) as u64;
        let b = if q / 8 == 0 {
            b0
        } else if q / 8 == 1 {
            b1
        } else if q / 8 == 2 {
            b2
        } else if q / 8 == 3 {
            b3
        } else {
            b4
        };
        let c = b as u8;
        let u = (7 - q % 8) as u8;
        assert(((x >> t) & 1 == 1) == ((c >> u) & 1 == 1)) by (bit_vector)
            requires
                b0 < 256,
                b1 < 256,
                b2 < 256,
                b3 < 256,
                b4 < 256,
                i < 8,
                3 <= j < 8,
                packed == (b0 << 32) | (b1 << 24) | (b2 << 16) | (b3 << 8) | b4,
                s == 35 - 5 * i,
                x == ((packed >> s) & 0x1f) as u8,
                t == 7 - j,
                q == 5 * i + j - 3,
                b == (if q / 8 == 0 {
                    b0
                } else if q / 8 == 1 {
                    b1
                } else if q / 8 == 2 {
                    b2
                } else if q / 8 == 3 {
                    b3
                } else {
                    b4
                }),
                c == b as u8,
                u == 7 - q % 8,
        ;
    }
}

/// The tables of a query: for every dimension one entry per code.
pub struct NaiveSqQuery<T> {
    bits: u8,
    dims: usize,
    lut: Vec<T>,
}

impl<T: Copy> NaiveSqQuery<T> {
    pub closed spec fn width(self) -> u8 {
        self.bits
    }

    pub closed spec fn dim(self) -> nat {
        self.dims as nat
    }

    pub closed spec fn table(self) -> Seq<T> {
        self.lut@
    }

    /// Codes that a dimension can have.
    pub open spec fn levels(self) -> nat {
        vstd::arithmetic::power2::pow2(self.width() as nat)
    }

    pub open spec fn wf(self) -> bool {
        &&& 1 <= self.width() <= 8
        &&& self.table().len() == self.dim() * self.levels()
    }

    /// A query with the table `lut`: entry `c` of dimension `d` stands at
    /// `d * 2^bits + c`.
    pub fn new(dims: usize, bits: u8, lut: Vec<T>) -> (r: NaiveSqQuery<T>)
        requires
            1 <= bits <= 8,
            lut@.len() == dims * vstd::arithmetic::power2::pow2(bits as nat),
        ensures
            r.wf(),
            r.width() == bits,
            r.dim() == dims,
            r.table() == lut@,
    {
        NaiveSqQuery { bits, dims, lut }
    }

    /// The codes of a packed vector. Vectors of five bits are read eight codes
    /// at a time.
    pub fn record_codes(&self, record: &[u8]) -> (codes: Vec<u8>)
        requires
            self.wf(),
            bytes_for(self.dim() * self.width()) <= record@.len(),
            8 * record@.len() <= usize::MAX,
        ensures
            codes@.len() == self.dim(),
            forall|d: int|
                0 <= d < self.dim() ==> spelled(
                    record@,
                    d * self.width(),
                    self.width() as int,
                    #[trigger] codes@[d],
                ),
    {
        let mut codes: Vec<u8> = Vec::new();
        let ghost w = self.bits as int;
        let ghost n = self.dims as int;
        let mut d: usize = 0;
        if self.bits == 5 {
            let groups: usize = self.dims / 8;
            proof {
                assert(n * w == 5 * n) by (nonlinear_arith)
                    requires
                        w == 5,
                ;
            }
            for g in 0..groups
                invariant
                    self.bits == 5,
                    w == 5,
                    groups == self.dims / 8,
                    n == self.dims,
                    bytes_for(5 * n) <= record@.len(),
                    8 * record@.len() <= usize::MAX,
                    codes@.len() == 8 * g,
                    forall|e: int|
                        0 <= e < 8 * g ==> spelled(record@, e * w, w, #[trigger] codes@[e]),
            {
                let group = group_codes(record, 5 * g);
                for i in 0..8usize
                    invariant
                        w == 5,
                        codes@.len() == 8 * g + i,
                        forall|e: int|
                            0 <= e < 8 * g + i ==> spelled(
                                record@,
                                e * w,
                                w,
                                #[trigger] codes@[e],
                            ),
                        forall|m: int|
                            0 <= m < 8 ==> spelled(
                                record@,
                                40 * g + 5 * m,
                                5,
                                #[trigger] group@[m],
                            ),
                {
                    proof {
                        assert((8 * g + i) * w == 40 * g + 5 * i) by (nonlinear_arith)
                            requires
                                w == 5,
                        ;
                        assert(spelled(record@, 40 * g + 5 * i, 5, group@[i as int]));
                    }
                    codes.push(group[i]);
                }
            }
            d = 8 * groups;
        }
        while d < self.dims
            invariant
                self.wf(),
                w == self.bits,
                n == self.dims,
                1 <= w <= 8,
                bytes_for(n * w) <= record@.len(),
                8 * record@.len() <= usize::MAX,
                d <= n,
                codes@.len() == d,
                forall|e: int| 0 <= e < d ==> spelled(record@, e * w, w, #[trigger] codes@[e]),
            decreases n - d,
        {
            proof {
                assert(d * w + w <= n * w) by (nonlinear_arith)
                    requires
                        d + 1 <= n,
                        w >= 1,
                ;
            }
            codes.push(unpack_code(record, d, self.bits));
            d = d + 1;
        }
        codes
    }

    /// The table entries that the codes of a packed vector select, one per
    /// dimension; the score of the vector is their sum.
    pub fn record_terms(&self, record: &[u8]) -> (terms: Vec<T>)
        requires
            self.wf(),
            bytes_for(self.dim() * self.width()) <= record@.len(),
            8 * record@.len() <= usize::MAX,
        ensures
            terms@.len() == self.dim(),
            forall|d: int, x: u8|
                0 <= d < self.dim() && #[trigger] spelled(
                    record@,
                    d * self.width(),
                    self.width() as int,
                    x,
                ) ==> terms@[d] == self.table()[d * self.levels() + x],
    {
        let codes = self.record_codes(record);
        let ghost w = self.bits as int;
        let ghost k = self.levels() as int;
        proof {
            vstd::bits::lemma_usize_pow2_no_overflow(self.bits as nat);
            vstd::bits::lemma_usize_shl_is_mul(1, self.bits as usize);
        }
        let levels: usize = 1usize << (self.bits as usize);
        let mut terms: Vec<T> = Vec::new();
        for d in 0..self.dims
            invariant
                self.wf(),
                w == self.bits,
                k == self.levels(),
                levels == k,
                codes@.len() == self.dims,
                forall|e: int|
                    0 <= e < self.dims ==> spelled(record@, e * w, w, #[trigger] codes@[e]),
                terms@.len() == d,
                forall|e: int|
                    0 <= e < d ==> #[trigger] terms@[e] == self.lut@[e * k + codes@[e]],
        {
            let x: u8 = codes[d];
            proof {
                assert(spelled(record@, d * w, w, codes@[d as int]));
                lemma_code_bound(record@, d * w, self.bits, x);
                assert(self.lut@.len() == self.lut.len());
                assert(0 <= d * k && d * k + x < self.dims * k) by (nonlinear_arith)
                    requires
                        0 <= d,
                        d + 1 <= self.dims,
                        0 <= x < k,
                ;
            }
            terms.push(self.lut[d * levels + x as usize]);
        }
        proof {
            assert forall|d: int, x: u8| 0 <= d < self.dims && #[trigger] spelled(
                record@,
                d * w,
                w,
                x,
            ) implies terms@[d] == self.lut@[d * k + x] by {
                lemma_spelled_once(record@, d * w, w, x, codes@[d]);
                assert(terms@[d] == self.lut@[d * k + codes@[d]]);
            }
        }
        terms
    }

    /// The score of a packed vector: the sum of the table entries that its codes
    /// select.
    pub fn score_record<F: Fn(T, T) -> T>(&self, record: &[u8], zero: T, plus: &F) -> (sum: T)
        requires
            self.wf(),
            bytes_for(self.dim() * self.width()) <= record@.len(),
            8 * record@.len() <= usize::MAX,
            is_function2(*plus),
        ensures
            sum == record_score(*self, record@, zero, *plus),
    {
        let terms = self.record_terms(record);
        let ghost w = self.bits as int;
        let ghost k = self.levels() as int;
        let ghost at = |c: int| index_at(record@, w, c);
        let ghost p = |a: T, b: T| value_of2(*plus, a, b);
        let mut sum: T = zero;
        for d in 0..self.dims
            invariant
                self.wf(),
                w == self.bits,
                k == self.levels(),
                at == (|c: int| index_at(record@, w, c)),
                p == (|a: T, b: T| value_of2(*plus, a, b)),
                is_function2(*plus),
                terms@.len() == self.dims,
                forall|d: int, x: u8|
                    0 <= d < self.dim() && #[trigger] spelled(
                        record@,
                        d * self.width(),
                        self.width() as int,
                        x,
                    ) ==> terms@[d] == self.table()[d * self.levels() + x],
                sum == row_sum(self.table(), k, at, zero, p, d as nat),
        {
            let ghost before = sum;
            proof {
                lemma_index_at(record@, w, d as int);
                assert(terms@[d as int] == self.table()[d * k + at(d as int)]);
            }
            sum = plus(sum, terms[d]);
            assert(sum == p(before, terms@[d as int]));
        }
        sum
    }
}

/// The sum of the table entries that the codes of a packed vector select.
pub open spec fn record_score<T: Copy, F: Fn(T, T) -> T>(
    query: NaiveSqQuery<T>,
    record: Seq<u8>,
    zero: T,
    plus: F,
) -> T {
    row_sum(
        query.table(),
        query.levels() as int,
        |c: int| index_at(record, query.width() as int, c),
        zero,
        |a: T, b: T| value_of2(plus, a, b),
        query.dim(),
    )
}

impl NaiveSqQuantizer {
    /// Every vector that has an id, with the key of its score.
    pub open spec fn scored<T: Copy, F: Fn(T, T) -> T, K: Fn(T) -> u32>(
        self,
        doc_ids: Seq<u64>,
        query: NaiveSqQuery<T>,
        zero: T,
        plus: F,
        key: K,
    ) -> Seq<ScoredDoc> {
        Seq::new(
            smaller(self.codes@.len(), doc_ids.len()),
            |i: int|
                ScoredDoc {
                    score: value_of(key, record_score(query, self.codes@[i]@, zero, plus)),
                    id: doc_ids[i],
                },
        )
    }

    /// The `k` best vectors by score, best first. `key` orders scores.
    pub fn top_k<T: Copy, F: Fn(T, T) -> T, K: Fn(T) -> u32>(
        &self,
        doc_ids: &[u64],
        query: &NaiveSqQuery<T>,
        k: usize,
        zero: T,
        plus: &F,
        key: &K,
    ) -> (top: Vec<ScoredDoc>)
        requires
            query.wf(),
            is_function2(*plus),
            is_function(*key),
            forall|i: int|
                0 <= i < self.codes@.len() ==> {
                    &&& bytes_for(query.dim() * query.width()) <= (
                    #[trigger] self.codes@[i])@.len()
                    &&& 8 * self.codes@[i]@.len() <= usize::MAX
                },
        ensures
            are_top(self.scored(doc_ids@, *query, zero, *plus, *key), top@, k as nat),
    {
        let ghost all = self.scored(doc_ids@, *query, zero, *plus, *key);
        let n: usize = if self.codes.len() <= doc_ids.len() {
            self.codes.len()
        } else {
            doc_ids.len()
        };
        let mut scored: Vec<ScoredDoc> = Vec::new();
        for i in 0..n
            invariant
                n == smaller(self.codes@.len(), doc_ids@.len()),
                query.wf(),
                is_function2(*plus),
                is_function(*key),
                forall|i: int|
                    0 <= i < self.codes@.len() ==> {
                        &&& bytes_for(query.dim() * query.width()) <= (
                        #[trigger] self.codes@[i])@.len()
                        &&& 8 * self.codes@[i]@.len() <= usize::MAX
                    },
                all == self.scored(doc_ids@, *query, zero, *plus, *key),
                scored@ == all.take(i as int),
        {
            assert(0 <= i < self.codes@.len());
            let sum: T = query.score_record(&self.codes[i], zero, plus);
            let score: u32 = key(sum);
            scored.push(ScoredDoc { score, id: doc_ids[i] });
            assert(scored@ =~= all.take(i + 1));
        }
        assert(all.take(n as int) =~= all);
        top_k_by_score(&scored, k)
    }
}

/// A code of `w` bits is below `2^w`.
pub proof fn lemma_code_bound(bytes: Seq<u8>, p: int, w: u8, x: u8)
    requires
        1 <= w <= 8,
        spelled(bytes, p, w as int, x),
    ensures
        x < vstd::arithmetic::power2::pow2(w as nat),
{
    vstd::arithmetic::power2::lemma2_to64();
    assert forall|j: int| 0 <= j < 8 - w implies !#[trigger] bit_of(x, j) by {}
    if w < 8 {
        assert(!bit_of(x, 0));
    }
    if w < 7 {
        assert(!bit_of(x, 1));
    }
    if w < 6 {
        assert(!bit_of(x, 2));
    }
    if w < 5 {
        assert(!bit_of(x, 3));
    }
    if w < 4 {
        assert(!bit_of(x, 4));
    }
    if w < 3 {
        assert(!bit_of(x, 5));
    }
    if w < 2 {
        assert(!bit_of(x, 6));
    }
    assert((w < 8 ==> x < 128) && (w < 7 ==> x < 64) && (w < 6 ==> x < 32) && (w < 5 ==> x < 16)
        && (w < 4 ==> x < 8) && (w < 3 ==> x < 4) && (w < 2 ==> x < 2)) by (bit_vector)
        requires
            w < 8 ==> (x >> 7) & 1 != 1,
            w < 7 ==> (x >> 6) & 1 != 1,
            w < 6 ==> (x >> 5) & 1 != 1,
            w < 5 ==> (x >> 4) & 1 != 1,
            w < 4 ==> (x >> 3) & 1 != 1,
            w < 3 ==> (x >> 2) & 1 != 1,
            w < 2 ==> (x >> 1) & 1 != 1,
    ;
}

/// The codes that a packed vector spells are those that were packed, where they
/// fit into their bits.
pub proof fn law_packed_codes_are_read_back(packed: Seq<u8>, row: Seq<u8>, bits: u8)
    requires
        1 <= bits <= 8,
        is_packed(packed, row, bits),
        forall|d: int| 0 <= d < row.len() ==> #[trigger] row[d] <= sub_one_shl(bits as u16),
    ensures
        forall|d: int|
            0 <= d < row.len() ==> #[trigger] index_at(packed, bits as int, d) == row[d],
{
    let read = Seq::new(row.len(), |d: int| index_at(packed, bits as int, d));
    assert forall|d: int| 0 <= d < row.len() implies spelled(
        packed,
        d * bits,
        bits as int,
        #[trigger] read[d],
    ) by {
        lemma_index_at(packed, bits as int, d);
    }
    law_unpack_inverts_pack(packed, row, read, bits);
    assert forall|d: int| 0 <= d < row.len() implies #[trigger] index_at(packed, bits as int, d)
        == row[d] by {
        assert(read[d] == row[d]);
    }
}

/// The dot product of a query and a vector of codes, times the largest code: a
/// code stands for a share of the span of its dimension, from its least value on.
pub open spec fn dequantized_dot(
    q: Seq<int>,
    mins: Seq<int>,
    spans: Seq<int>,
    largest: int,
    row: Seq<u8>,
    n: nat,
) -> int
    decreases n,
{
    if n == 0 {
        0
    } else {
        dequantized_dot(q, mins, spans, largest, row, (n - 1) as nat) + q[n - 1] * (mins[n - 1]
            * largest + row[n - 1] * spans[n - 1])
    }
}

proof fn lemma_dot_is_a_sum(
    q: Seq<int>,
    mins: Seq<int>,
    spans: Seq<int>,
    largest: int,
    row: Seq<u8>,
    term: spec_fn(int) -> int,
    n: nat,
)
    requires
        forall|d: int|
            0 <= d < n ==> #[trigger] term(d) == q[d] * (mins[d] * largest + row[d] * spans[d]),
    ensures
        sum_to(term, n) == dequantized_dot(q, mins, spans, largest, row, n),
    decreases n,
{
    if n > 0 {
        lemma_dot_is_a_sum(q, mins, spans, largest, row, term, (n - 1) as nat);
        assert(term(n - 1) == q[n - 1] * (mins[n - 1] * largest + row[n - 1] * spans[n - 1]));
    }
}

/// The score of a packed vector is the dot product of the query with what its
/// codes stand for. `num` maps elements to integers. Where the table holds these
/// products with an error of at most `r`, and each addition errs by at most `e`,
/// the score errs by at most `dims * (r + e)`; without errors it is the product.
pub proof fn law_scores_are_dequantized_dots<T: Copy, F: Fn(T, T) -> T>(
    query: NaiveSqQuery<T>,
    packed: Seq<u8>,
    row: Seq<u8>,
    zero: T,
    plus: F,
    num: spec_fn(T) -> int,
    q: Seq<int>,
    mins: Seq<int>,
    spans: Seq<int>,
    r: int,
    e: int,
)
    requires
        query.wf(),
        row.len() == query.dim(),
        is_packed(packed, row, query.width()),
        forall|d: int|
            0 <= d < row.len() ==> #[trigger] row[d] <= sub_one_shl(query.width() as u16),
        num(zero) == 0,
        forall|d: int, c: int|
            0 <= d < query.dim() && 0 <= c < query.levels() ==> near(
                num(#[trigger] query.table()[d * query.levels() + c]),
                q[d] * (mins[d] * (query.levels() - 1) + c * spans[d]),
                r,
            ),
        row_adds_within(
            num,
            query.table(),
            query.levels() as int,
            |c: int| index_at(packed, query.width() as int, c),
            zero,
            |a: T, b: T| value_of2(plus, a, b),
            query.dim(),
            e,
        ),
    ensures
        near(
            num(record_score(query, packed, zero, plus)),
            dequantized_dot(q, mins, spans, query.levels() - 1, row, query.dim()),
            query.dim() * (r + e),
        ),
{
    let n = query.dim();
    let k = query.levels() as int;
    let w = query.width() as int;
    let at = |c: int| index_at(packed, w, c);
    let p = |a: T, b: T| value_of2(plus, a, b);
    let term = |d: int| q[d] * (mins[d] * (k - 1) + row[d] * spans[d]);
    law_packed_codes_are_read_back(packed, row, query.width());
    assert forall|d: int| 0 <= d < n implies near(
        num(query.table()[d * k + at(d)]),
        #[trigger] term(d),
        r,
    ) by {
        assert(index_at(packed, w, d) == row[d]);
        lemma_index_at(packed, w, d);
        lemma_code_bound(packed, d * w, query.width(), row[d]);
        let c = row[d] as int;
        assert(near(
            num(query.table()[d * query.levels() + c]),
            q[d] * (mins[d] * (query.levels() - 1) + c * spans[d]),
            r,
        ));
    }
    lemma_row_sum_near(num, query.table(), k, at, zero, p, term, n, r, e);
    lemma_dot_is_a_sum(q, mins, spans, k - 1, row, term, n);
}

/// The dequantized dot product is the total of coordinate times value.
pub proof fn law_dequantized_dots_are_totals(
    q: Seq<int>,
    mins: Seq<int>,
    spans: Seq<int>,
    largest: int,
    row: Seq<u8>,
    n: nat,
)
    ensures
        dequantized_dot(q, mins, spans, largest, row, n) == crate::arith::total(
            n,
            |d: int| q[d] * (mins[d] * largest + row[d] * spans[d]),
        ),
    decreases n,
{
    let term = |d: int| q[d] * (mins[d] * largest + row[d] * spans[d]);
    if n > 0 {
        law_dequantized_dots_are_totals(q, mins, spans, largest, row, (n - 1) as nat);
        crate::arith::lemma_total_step((n - 1) as nat, term);
    } else {
        crate::arith::lemma_total_step(0, term);
    }
}

} // verus!
