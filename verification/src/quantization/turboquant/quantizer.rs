//! Assembly of encoded vectors from their parts.
use vstd::prelude::*;
use vstd::wrapping::*;
use crate::bits::{bit_at, bit_of, bytes_for, le32_at};
use crate::quantization::turboquant::bitpack::{
    clear_bits, pack_into, pack_signs_into, packs, spelled, unpack_into,
};
use crate::quantization::turboquant::record::{
    bytes_per_record, layout_fits, norm_start, record_len, s1_bits, stage1_bytes, stage2_offset,
    stage2_start, write_norm,
};

verus! {

/// How stage-2 residuals are projected before their signs are taken.
#[derive(Debug, Clone, Copy, PartialEq, Eq, Structural)]
pub enum QjlProjectionKind {
    Srht,
    Gaussian,
}

/// Bits per coordinate: four for the stage-1 index, one for the sign.
pub const BIT_WIDTH: u8 = 5;

/// Seed of the rotation unless another is asked for.
pub const DEFAULT_ROTATOR_SEED: u64 = 42;

/// Distance between the seed of the rotation and that of the projection.
pub const SEED_STEP: u64 = 0x9E37_79B9_7F4A_7C15;

/// Shape and seeds of an encoder.
#[derive(Debug, Clone, Copy, PartialEq, Eq, Structural)]
pub struct TurboQuantizer {
    pub dim: usize,
    pub padded_dim: usize,
    pub bit_width: u8,
    pub rotator_seed: u64,
    pub qjl_seed: u64,
    pub qjl_kind: QjlProjectionKind,
}

/// The stage-1 indices of `record` are `indices`.
pub open spec fn holds_indices(record: Seq<u8>, indices: Seq<u8>, bit_width: u8) -> bool {
    packs(record, indices, indices.len() as int, s1_bits(bit_width))
}

/// The stage-2 signs of `record` are `signs`.
pub open spec fn holds_signs(record: Seq<u8>, signs: Seq<bool>, signs_at: int) -> bool {
    forall|c: int| 0 <= c < signs.len() ==> #[trigger] bit_at(record, 8 * signs_at + c) == signs[c]
}

/// `record` is the encoding of `indices`, `signs` and `gamma`: each part in
/// its place, and the bits that fill the last byte of a part clear.
pub open spec fn encodes(
    record: Seq<u8>,
    indices: Seq<u8>,
    signs: Seq<bool>,
    gamma: u32,
    d: int,
    bit_width: u8,
) -> bool {
    &&& holds_indices(record, indices, bit_width)
    &&& holds_signs(record, signs, stage2_start(d, bit_width))
    &&& clear_bits(record, d * s1_bits(bit_width), 8 * stage2_start(d, bit_width))
    &&& clear_bits(record, 8 * stage2_start(d, bit_width) + d, 8 * norm_start(d, bit_width))
    &&& le32_at(record, norm_start(d, bit_width)) == gamma
}

impl TurboQuantizer {
    pub open spec fn wf(self) -> bool {
        &&& 2 <= self.bit_width <= 9
        &&& layout_fits(self.padded_dim as int, self.bit_width)
    }

    /// An encoder for vectors of `dim` coordinates that are padded to
    /// `padded_dim`, with the default projection.
    pub fn new(dim: usize, padded_dim: usize, rotator_seed: Option<u64>) -> (r: TurboQuantizer)
        requires
            dim > 0,
        ensures
            r.dim == dim,
            r.padded_dim == padded_dim,
            r.bit_width == 5,
            r.rotator_seed == (match rotator_seed {
                Some(s) => s,
                None => 42,
            }),
            r.qjl_seed == (r.rotator_seed + SEED_STEP) % 0x1_0000_0000_0000_0000,
            r.qjl_kind == QjlProjectionKind::Srht,
    {
        TurboQuantizer::new_with_qjl_projection(
            dim,
            padded_dim,
            rotator_seed,
            QjlProjectionKind::Srht,
        )
    }

    /// The same with a given projection.
    pub fn new_with_qjl_projection(
        dim: usize,
        padded_dim: usize,
        rotator_seed: Option<u64>,
        qjl_kind: QjlProjectionKind,
    ) -> (r: TurboQuantizer)
        requires
            dim > 0,
        ensures
            r.dim == dim,
            r.padded_dim == padded_dim,
            r.bit_width == 5,
            r.rotator_seed == (match rotator_seed {
                Some(s) => s,
                None => 42,
            }),
            r.qjl_seed == (r.rotator_seed + SEED_STEP) % 0x1_0000_0000_0000_0000,
            r.qjl_kind == qjl_kind,
    {
        let seed: u64 = match rotator_seed {
            Some(s) => s,
            None => DEFAULT_ROTATOR_SEED,
        };
        TurboQuantizer {
            dim,
            padded_dim,
            bit_width: BIT_WIDTH,
            rotator_seed: seed,
            qjl_seed: seed.wrapping_add(SEED_STEP),
            qjl_kind,
        }
    }

    /// Bytes of an encoded vector.
    pub fn bytes_per_record(&self) -> (r: usize)
        requires
            layout_fits(self.padded_dim as int, self.bit_width),
        ensures
            r == record_len(self.padded_dim as int, self.bit_width),
    {
        bytes_per_record(self.padded_dim, self.bit_width)
    }

    /// Writes the encoding of a vector into the front of `out`.
    pub fn encode_into(&self, indices: &[u8], signs: &[bool], gamma: u32, out: &mut [u8])
        requires
            self.wf(),
            indices@.len() == self.padded_dim,
            signs@.len() == self.padded_dim,
            record_len(self.padded_dim as int, self.bit_width) <= old(out)@.len(),
        ensures
            final(out)@.len() == old(out)@.len(),
            encodes(
                final(out)@,
                indices@,
                signs@,
                gamma,
                self.padded_dim as int,
                self.bit_width,
            ),
            forall|p: int|
                record_len(self.padded_dim as int, self.bit_width) <= p < old(out)@.len()
                    ==> #[trigger] final(out)@[p] == old(out)@[p],
    {
        let ghost d = self.padded_dim as int;
        let ghost w = s1_bits(self.bit_width);
        let ghost signs_at = stage2_start(d, self.bit_width);
        let ghost norm_at = norm_start(d, self.bit_width);
        let ghost before = out@;
        proof {
            assert(out@.len() == out.len());
        }
        let s1_end: usize = stage2_offset(self.padded_dim, self.bit_width);
        pack_into(indices, self.bit_width - 1, out);
        let ghost packed = out@;
        let ghost mut tail: Seq<u8> = Seq::empty();
        {
            let (front, back) = out.split_at_mut(s1_end);
            pack_signs_into(signs, back);
            proof {
                tail = back@;
            }
        }
        let ghost signed = out@;
        write_norm(out, self.padded_dim, self.bit_width, gamma);
        proof {
            assert(tail =~= signed.subrange(signs_at, signed.len() as int));
            assert forall|p: int| 0 <= p < 8 * signs_at implies #[trigger] bit_at(out@, p)
                == bit_at(packed, p) by {
                assert(out@[p / 8] == signed[p / 8]);
                assert(signed[p / 8] == packed[p / 8]);
            }
            assert forall|i: int, j: int| 0 <= i < d && 0 <= j < w implies #[trigger] bit_at(
                out@,
                i * w + j,
            ) == #[trigger] bit_of(indices@[i], 8 - w + j) by {
                assert(0 <= i * w && i * w + w <= d * w) by (nonlinear_arith)
                    requires
                        0 <= i,
                        i + 1 <= d,
                        w >= 0,
                ;
                assert(bit_at(packed, i * w + j) == bit_of(indices@[i], 8 - w + j));
                assert(bit_at(out@, i * w + j) == bit_at(packed, i * w + j));
            }
            assert forall|c: int| 0 <= c < 8 * bytes_for(d) implies #[trigger] bit_at(
                out@,
                8 * signs_at + c,
            ) == bit_at(tail, c) by {
                assert(out@[signs_at + c / 8] == tail[c / 8]);
                assert((8 * signs_at + c) / 8 == signs_at + c / 8);
            }
            assert forall|c: int| 0 <= c < d implies #[trigger] bit_at(out@, 8 * signs_at + c)
                == signs@[c] by {
                assert(bit_at(tail, c) == signs@[c]);
            }
            assert forall|p: int| 8 * signs_at + d <= p < 8 * norm_at implies !#[trigger] bit_at(
                out@,
                p,
            ) by {
                let c = p - 8 * signs_at;
                assert(!bit_at(tail, c));
                assert(bit_at(out@, 8 * signs_at + c) == bit_at(tail, c));
            }
            assert forall|p: int| record_len(d, self.bit_width) <= p < before.len() implies
                #[trigger] out@[p] == before[p] by {
                assert(signed[p] == tail[p - signs_at]);
                assert(packed[p] == before[p]);
            }
        }
    }

    /// The encoding of a vector.
    pub fn encode(&self, indices: &[u8], signs: &[bool], gamma: u32) -> (out: Vec<u8>)
        requires
            self.wf(),
            indices@.len() == self.padded_dim,
            signs@.len() == self.padded_dim,
        ensures
            out@.len() == record_len(self.padded_dim as int, self.bit_width),
            encodes(out@, indices@, signs@, gamma, self.padded_dim as int, self.bit_width),
    {
        let mut out: Vec<u8> = vec![0u8; self.bytes_per_record()];
        self.encode_into(indices, signs, gamma, &mut out);
        out
    }

    /// Reconstructs the rotated vector from its stage-1 indices: coordinate
    /// `i` becomes the codebook level that index `i` names.
    pub fn dequantize_into<T: Copy>(&self, record: &[u8], centroids: &[T], out: &mut [T])
        requires
            self.wf(),
            stage2_start(self.padded_dim as int, self.bit_width) <= record@.len(),
            self.padded_dim <= old(out)@.len(),
            forall|x: u8, i: int|
                0 <= i < self.padded_dim && #[trigger] spelled(
                    record@,
                    i * s1_bits(self.bit_width),
                    s1_bits(self.bit_width),
                    x,
                ) ==> x < centroids@.len(),
        ensures
            final(out)@.len() == old(out)@.len(),
            forall|x: u8, i: int|
                0 <= i < self.padded_dim && #[trigger] spelled(
                    record@,
                    i * s1_bits(self.bit_width),
                    s1_bits(self.bit_width),
                    x,
                ) ==> final(out)@[i] == centroids@[x as int],
            forall|i: int|
                self.padded_dim <= i < old(out)@.len() ==> #[trigger] final(out)@[i]
                    == old(out)@[i],
    {
        let ghost before = out@;
        let ghost d = self.padded_dim as int;
        let ghost w = s1_bits(self.bit_width);
        let indices = record_indices(record, self.padded_dim, self.bit_width);
        for i in 0..self.padded_dim
            invariant
                self.wf(),
                d == self.padded_dim,
                w == s1_bits(self.bit_width),
                out@.len() == before.len(),
                d <= before.len(),
                indices@.len() == d,
                forall|i: int| 0 <= i < d ==> spelled(record@, i * w, w, #[trigger] indices@[i]),
                forall|x: u8, i: int|
                    0 <= i < d && #[trigger] spelled(record@, i * w, w, x) ==> x < centroids@.len(),
                forall|m: int|
                    0 <= m < i ==> #[trigger] out@[m] == centroids@[indices@[m] as int],
                forall|m: int| i <= m < before.len() ==> #[trigger] out@[m] == before[m],
        {
            out[i] = centroids[indices[i] as usize];
        }
        proof {
            assert forall|x: u8, i: int| 0 <= i < d && #[trigger] spelled(
                record@,
                i * w,
                w,
                x,
            ) implies out@[i] == centroids@[x as int] by {
                lemma_spelled_once(record@, i * w, w, x, indices@[i]);
            }
        }
    }
}

/// The bits of an index spell one number only.
pub proof fn lemma_spelled_once(bytes: Seq<u8>, p: int, w: int, x: u8, y: u8)
    requires
        spelled(bytes, p, w, x),
        spelled(bytes, p, w, y),
    ensures
        x == y,
{
    assert forall|j: int| 0 <= j < 8 implies #[trigger] bit_of(x, j) == bit_of(y, j) by {}
    crate::bits::lemma_same_bits(x, y);
}

/// The stage-1 indices of a record.
pub fn record_indices(record: &[u8], padded_dim: usize, bit_width: u8) -> (indices: Vec<u8>)
    requires
        2 <= bit_width <= 9,
        padded_dim * s1_bits(bit_width) <= usize::MAX,
        stage2_start(padded_dim as int, bit_width) <= record@.len(),
    ensures
        indices@.len() == padded_dim,
        forall|i: int|
            0 <= i < padded_dim ==> spelled(
                record@,
                i * s1_bits(bit_width),
                s1_bits(bit_width),
                #[trigger] indices@[i],
            ),
{
    let ghost d = padded_dim as int;
    let ghost w = s1_bits(bit_width);
    let s1 = stage1_bytes(record, padded_dim, bit_width);
    let mut indices: Vec<u8> = vec![0u8; padded_dim];
    unpack_into(s1, padded_dim, bit_width - 1, &mut indices);
    proof {
        assert forall|i: int| 0 <= i < d implies spelled(
            record@,
            i * w,
            w,
            #[trigger] indices@[i],
        ) by {
            let x = indices@[i];
            assert(spelled(s1@, i * w, w, x));
            assert forall|j: int| 0 <= j < 8 implies #[trigger] bit_of(x, j) == (j >= 8 - w
                && bit_at(record@, i * w + j - (8 - w))) by {
                assert(0 <= i * w && i * w + w <= d * w) by (nonlinear_arith)
                    requires
                        0 <= i,
                        i + 1 <= d,
                        w >= 0,
                ;
                let q = i * w + j - (8 - w);
                if j >= 8 - w {
                    assert(s1@[q / 8] == record@[q / 8]);
                }
            }
        }
    }
    indices
}

/// Decoding the indices of an encoded vector gives them back, as far as they
/// fit into their bits.
pub proof fn law_encoded_indices_decode(
    record: Seq<u8>,
    indices: Seq<u8>,
    signs: Seq<bool>,
    gamma: u32,
    d: int,
    bit_width: u8,
    i: int,
    x: u8,
)
    requires
        2 <= bit_width <= 9,
        indices.len() == d,
        encodes(record, indices, signs, gamma, d, bit_width),
        0 <= i < d,
        spelled(record, i * s1_bits(bit_width), s1_bits(bit_width), x),
    ensures
        forall|j: int|
            0 <= j < 8 ==> #[trigger] bit_of(x, j) == (j >= 8 - s1_bits(bit_width) && bit_of(
                indices[i],
                j,
            )),
{
    let w = s1_bits(bit_width);
    assert forall|j: int| 0 <= j < 8 implies #[trigger] bit_of(x, j) == (j >= 8 - w && bit_of(
        indices[i],
        j,
    )) by {
        if j >= 8 - w {
            let m = j - (8 - w);
            assert(bit_at(record, i * w + m) == bit_of(indices[i], 8 - w + m));
        }
    }
}

} // verus!
