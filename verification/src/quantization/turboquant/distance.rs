//! Reading encoded vectors against a query.
//!
//! A query keeps a table with one row per coordinate: entry `v` of row `i` is
//! the product of the rotated query at `i` and codebook level `v`. The
//! inner-product estimate of an encoded vector adds up the table entries that
//! its indices name, and the projected query with the signs that it stores. The
//! number type is left open; products are taken by a function that the caller
//! gives.
use vstd::prelude::*;
use crate::bits::{bit_at, bit_of, le32_at, lemma_byte_of_bits};
use crate::quantization::turboquant::bitpack::{spelled, unpack_signs_into};
use crate::quantization::turboquant::quantizer::{lemma_spelled_once, record_indices, TurboQuantizer};
use crate::quantization::turboquant::record::{
    layout_fits, norm_start, read_norm, record_len, s1_bits, stage2_bytes, stage2_start,
};

verus! {

/// Per-query tables, shared by all estimates of one search.
pub struct TurboQuantQuery<T> {
    qjl_query: Vec<T>,
    padded_dim: usize,
    bit_width: u8,
    s1_lut: Vec<T>,
    s1_levels: usize,
}

/// What an estimate adds up: one table entry per coordinate, the sign of each
/// coordinate of the projected query, and the residual norm as a bit pattern.
pub struct EstimateTerms<T> {
    pub stage1: Vec<T>,
    pub signs: Vec<bool>,
    pub gamma: u32,
}

/// Index `c` of a record whose indices have `w` bits.
pub open spec fn index_at(record: Seq<u8>, w: int, c: int) -> u8 {
    let p = c * w;
    choose|x: u8| #[trigger] spelled(record, p, w, x)
}

/// A record has an index at every coordinate.
pub proof fn lemma_index_at(record: Seq<u8>, w: int, c: int)
    ensures
        spelled(record, c * w, w, index_at(record, w, c)),
{
    let p = c * w;
    let b = |j: int| j >= 8 - w && bit_at(record, p + j - (8 - w));
    let x = lemma_byte_of_bits(b);
    assert(spelled(record, p, w, x)) by {
        assert forall|j: int| 0 <= j < 8 implies #[trigger] bit_of(x, j) == (j >= 8 - w && bit_at(
            record,
            p + j - (8 - w),
        )) by {
            assert(bit_of(x, j) == b(j));
        }
    }
}

impl<T: Copy> TurboQuantQuery<T> {
    pub closed spec fn lut(self) -> Seq<T> {
        self.s1_lut@
    }

    pub closed spec fn levels(self) -> nat {
        self.s1_levels as nat
    }

    pub closed spec fn projected(self) -> Seq<T> {
        self.qjl_query@
    }

    pub closed spec fn dim(self) -> nat {
        self.padded_dim as nat
    }

    pub closed spec fn width(self) -> u8 {
        self.bit_width
    }

    /// The table has one row of `levels` entries per coordinate.
    pub open spec fn wf(self) -> bool {
        &&& 2 <= self.width() <= 9
        &&& layout_fits(self.dim() as int, self.width())
        &&& self.lut().len() == self.dim() * self.levels()
        &&& self.projected().len() == self.dim()
    }

    /// Prepares a query: `rotated` is the rotated query, `qjl_query` its
    /// projection, `centroids` the codebook levels.
    pub fn new<F: Fn(T, T) -> T>(
        quantizer: &TurboQuantizer,
        rotated: &[T],
        qjl_query: Vec<T>,
        centroids: &[T],
        times: &F,
    ) -> (r: TurboQuantQuery<T>)
        requires
            quantizer.wf(),
            rotated@.len() == quantizer.padded_dim,
            qjl_query@.len() == quantizer.padded_dim,
            quantizer.padded_dim * centroids@.len() <= usize::MAX,
            forall|a: T, b: T| #[trigger] call_requires(*times, (a, b)),
        ensures
            r.wf(),
            r.dim() == quantizer.padded_dim,
            r.width() == quantizer.bit_width,
            r.projected() == qjl_query@,
            r.levels() == centroids@.len(),
            forall|i: int, v: int|
                0 <= i < quantizer.padded_dim && 0 <= v < centroids@.len() ==> call_ensures(
                    *times,
                    (rotated@[i], centroids@[v]),
                    #[trigger] r.lut()[i * centroids@.len() + v],
                ),
    {
        let k: usize = centroids.len();
        let mut lut: Vec<T> = Vec::new();
        let d: usize = quantizer.padded_dim;
        for i in 0..d
            invariant
                k == centroids@.len(),
                rotated@.len() == d,
                lut@.len() == i * k,
                forall|a: T, b: T| #[trigger] call_requires(*times, (a, b)),
                forall|m: int, v: int|
                    0 <= m < i && 0 <= v < k ==> call_ensures(
                        *times,
                        (rotated@[m], centroids@[v]),
                        #[trigger] lut@[m * k + v],
                    ),
        {
            let q: T = rotated[i];
            for v in 0..k
                invariant
                    k == centroids@.len(),
                    rotated@.len() == d,
                    i < d,
                    q == rotated@[i as int],
                    lut@.len() == i * k + v,
                    forall|a: T, b: T| #[trigger] call_requires(*times, (a, b)),
                    forall|m: int, u: int|
                        0 <= m < i && 0 <= u < k ==> call_ensures(
                            *times,
                            (rotated@[m], centroids@[u]),
                            #[trigger] lut@[m * k + u],
                        ),
                    forall|u: int|
                        0 <= u < v ==> call_ensures(
                            *times,
                            (q, centroids@[u]),
                            #[trigger] lut@[i * k + u],
                        ),
            {
                let ghost before = lut@;
                let x: T = times(q, centroids[v]);
                lut.push(x);
                proof {
                    assert forall|m: int, u: int| 0 <= m < i && 0 <= u < k implies call_ensures(
                        *times,
                        (rotated@[m], centroids@[u]),
                        #[trigger] lut@[m * k + u],
                    ) by {
                        assert(0 <= m * k + u < i * k) by (nonlinear_arith)
                            requires
                                0 <= m,
                                m + 1 <= i,
                                0 <= u < k,
                        ;
                        assert(lut@[m * k + u] == before[m * k + u]);
                    }
                }
            }
            proof {
                assert((i + 1) * k == i * k + k) by (nonlinear_arith);
                assert forall|m: int, v: int| 0 <= m < i + 1 && 0 <= v < k implies call_ensures(
                    *times,
                    (rotated@[m], centroids@[v]),
                    #[trigger] lut@[m * k + v],
                ) by {
                    if m == i {
                        assert(lut@[i * k + v] == lut@[m * k + v]);
                    }
                }
            }
        }
        TurboQuantQuery {
            qjl_query,
            padded_dim: d,
            bit_width: quantizer.bit_width,
            s1_lut: lut,
            s1_levels: k,
        }
    }

    /// The terms of the inner-product estimate of one encoded vector.
    pub fn estimate_terms(&self, record: &[u8]) -> (r: EstimateTerms<T>)
        requires
            self.wf(),
            record_len(self.dim() as int, self.width()) <= record@.len(),
            forall|x: u8, i: int|
                0 <= i < self.dim() && #[trigger] spelled(
                    record@,
                    i * s1_bits(self.width()),
                    s1_bits(self.width()),
                    x,
                ) ==> x < self.levels(),
        ensures
            r.stage1@.len() == self.dim(),
            r.signs@.len() == self.dim(),
            forall|x: u8, i: int|
                0 <= i < self.dim() && #[trigger] spelled(
                    record@,
                    i * s1_bits(self.width()),
                    s1_bits(self.width()),
                    x,
                ) ==> r.stage1@[i] == self.lut()[i * self.levels() + x],
            forall|i: int|
                0 <= i < self.dim() ==> #[trigger] r.signs@[i] == bit_at(
                    record@,
                    8 * stage2_start(self.dim() as int, self.width()) + i,
                ),
            r.gamma == le32_at(record@, norm_start(self.dim() as int, self.width())),
    {
        let ghost d = self.dim() as int;
        let ghost w = s1_bits(self.bit_width);
        let ghost k = self.levels() as int;
        let indices = record_indices(record, self.padded_dim, self.bit_width);
        let mut stage1: Vec<T> = Vec::new();
        for i in 0..self.padded_dim
            invariant
                self.wf(),
                d == self.padded_dim,
                d == self.dim(),
                w == s1_bits(self.bit_width),
                k == self.s1_levels,
                self.s1_lut@.len() == d * k,
                indices@.len() == d,
                forall|i: int| 0 <= i < d ==> spelled(record@, i * w, w, #[trigger] indices@[i]),
                forall|x: u8, i: int|
                    0 <= i < d && #[trigger] spelled(record@, i * w, w, x) ==> x < k,
                stage1@.len() == i,
                forall|m: int|
                    0 <= m < i ==> #[trigger] stage1@[m] == self.s1_lut@[m * k + indices@[m]],
        {
            proof {
                assert(self.s1_lut@.len() == self.s1_lut.len());
                assert(spelled(record@, i * w, w, indices@[i as int]));
                let x = indices@[i as int];
                assert(0 <= i * k && i * k + x < d * k) by (nonlinear_arith)
                    requires
                        0 <= i,
                        i + 1 <= d,
                        0 <= x < k,
                ;
            }
            stage1.push(self.s1_lut[i * self.s1_levels + indices[i] as usize]);
        }
        let s2 = stage2_bytes(record, self.padded_dim, self.bit_width);
        let mut signs: Vec<bool> = vec![false; self.padded_dim];
        unpack_signs_into(s2, self.padded_dim, &mut signs);
        let gamma: u32 = read_norm(record, self.padded_dim, self.bit_width);
        proof {
            let signs_at = stage2_start(d, self.bit_width);
            assert forall|i: int| 0 <= i < d implies #[trigger] signs@[i] == bit_at(
                record@,
                8 * signs_at + i,
            ) by {
                assert(bit_at(s2@, i) == signs@[i]);
                assert(s2@[i / 8] == record@[signs_at + i / 8]);
                assert((8 * signs_at + i) / 8 == signs_at + i / 8);
            }
            assert forall|x: u8, i: int| 0 <= i < d && #[trigger] spelled(
                record@,
                i * w,
                w,
                x,
            ) implies stage1@[i] == self.lut()[i * k + x] by {
                lemma_spelled_once(record@, i * w, w, x, indices@[i]);
                assert(stage1@[i] == self.s1_lut@[i * k + indices@[i]]);
            }
        }
        EstimateTerms { stage1, signs, gamma }
    }

    /// The table and the length of its rows.
    pub fn s1_lut_view(&self) -> (r: (&[T], usize))
        ensures
            r.0@ == self.lut(),
            r.1 == self.levels(),
    {
        (self.s1_lut.as_slice(), self.s1_levels)
    }

    /// The projected query.
    pub fn qjl_query_view(&self) -> (r: &[T])
        ensures
            r@ == self.projected(),
    {
        self.qjl_query.as_slice()
    }

    /// Number of coordinates.
    pub fn padded_dim(&self) -> (r: usize)
        ensures
            r == self.dim(),
    {
        self.padded_dim
    }

    /// Bits per coordinate.
    pub fn bit_width(&self) -> (r: u8)
        ensures
            r == self.width(),
    {
        self.bit_width
    }
}

/// The word that flips the sign of a single-precision number where bit `j` of
/// `byte` is clear, and leaves it where the bit is set.
pub open spec fn sign_mask(byte: u8, j: int) -> u32 {
    if bit_of(byte, j) {
        0
    } else {
        0x8000_0000
    }
}

/// The sign masks of every byte.
pub fn build_sign_mask_table() -> (t: Vec<[u32; 8]>)
    ensures
        t@.len() == 256,
        forall|b: int, j: int|
            0 <= b < 256 && 0 <= j < 8 ==> #[trigger] t@[b]@[j] == sign_mask(b as u8, j),
{
    let mut t: Vec<[u32; 8]> = Vec::new();
    for b in 0..256usize
        invariant
            t@.len() == b,
            forall|c: int, j: int|
                0 <= c < b && 0 <= j < 8 ==> #[trigger] t@[c]@[j] == sign_mask(c as u8, j),
    {
        let mut row: [u32; 8] = [0u32; 8];
        let byte: u8 = b as u8;
        for j in 0..8usize
            invariant
                byte == b,
                forall|k: int| 0 <= k < j ==> #[trigger] row@[k] == sign_mask(byte, k),
        {
            let bit: u8 = (byte >> (7 - j as u8)) & 1;
            row[j] = if bit == 1 {
                0
            } else {
                0x8000_0000
            };
        }
        t.push(row);
    }
    t
}

} // verus!
