//! Byte layout of one code: the packed binary code, the packed extension code,
//! and eight factors as little-endian words (the bit patterns of
//! single-precision numbers).
use vstd::prelude::*;
use crate::bits::{bytes_for, bytes_for_bits, le32_at, le_byte, lemma_le32_at, read_le32};

verus! {

/// Bytes of the factors.
pub const SCALAR_BYTES: usize = 32;

/// A binary code with its extension and its factors. The factors are bit
/// patterns of single-precision numbers.
#[derive(Debug, Clone)]
pub struct QuantizedVector {
    pub binary_code_packed: Vec<u8>,
    pub ex_code_packed: Vec<u8>,
    pub ex_bits: u8,
    pub dim: usize,
    pub delta: u32,
    pub vl: u32,
    pub f_add: u32,
    pub f_rescale: u32,
    pub f_error: u32,
    pub residual_norm: u32,
    pub f_add_ex: u32,
    pub f_rescale_ex: u32,
}

impl QuantizedVector {
    /// The factors in the order in which they are stored.
    pub open spec fn scalars(self) -> Seq<u32> {
        seq![
            self.delta,
            self.vl,
            self.f_add,
            self.f_rescale,
            self.f_error,
            self.residual_norm,
            self.f_add_ex,
            self.f_rescale_ex,
        ]
    }
}

/// Bytes of an extension code: one, two and six bits per dimension are packed
/// in groups of sixteen dimensions, other widths bit by bit.
pub open spec fn ex_len(padded_dims: int, ex_bits: int) -> int {
    if ex_bits == 0 {
        0
    } else if ex_bits == 1 {
        padded_dims / 16 * 2
    } else if ex_bits == 2 {
        padded_dims / 16 * 4
    } else if ex_bits == 6 {
        padded_dims / 16 * 12
    } else {
        bytes_for(padded_dims * ex_bits)
    }
}

pub open spec fn record_len(padded_dims: int, ex_bits: int) -> int {
    bytes_for(padded_dims) + ex_len(padded_dims, ex_bits) + 32
}

/// The sizes of a record are machine words.
pub open spec fn record_fits(padded_dims: int, ex_bits: int) -> bool {
    padded_dims * ex_bits <= usize::MAX && record_len(padded_dims, ex_bits) <= usize::MAX
}

/// Bytes of an extension code.
pub fn ex_bytes(padded_dims: usize, ex_bits: usize) -> (r: usize)
    requires
        padded_dims * ex_bits <= usize::MAX,
    ensures
        r == ex_len(padded_dims as int, ex_bits as int),
{
    match ex_bits {
        0 => 0,
        1 => padded_dims / 16 * 2,
        2 => padded_dims / 16 * 4,
        6 => padded_dims / 16 * 12,
        _ => bytes_for_bits(padded_dims * ex_bits),
    }
}

/// Bytes of a record.
pub fn bytes_per_record(padded_dims: usize, ex_bits: usize) -> (r: usize)
    requires
        record_fits(padded_dims as int, ex_bits as int),
    ensures
        r == record_len(padded_dims as int, ex_bits as int),
{
    bytes_for_bits(padded_dims) + ex_bytes(padded_dims, ex_bits) + SCALAR_BYTES
}

/// `bytes` are the words `words`, each least significant byte first.
pub open spec fn words_at(bytes: Seq<u8>, at: int, words: Seq<u32>) -> bool {
    forall|i: int|
        0 <= i < words.len() ==> #[trigger] le32_at(bytes, at + 4 * i) == words[i]
}

fn push_le32(buf: &mut Vec<u8>, x: u32)
    ensures
        final(buf)@.len() == old(buf)@.len() + 4,
        le32_at(final(buf)@, old(buf)@.len() as int) == x,
        forall|p: int| 0 <= p < old(buf)@.len() ==> #[trigger] final(buf)@[p] == old(buf)@[p],
{
    let ghost at = buf@.len() as int;
    buf.push(#[verifier::truncate] (x as u8));
    buf.push(#[verifier::truncate] ((x >> 8) as u8));
    buf.push(#[verifier::truncate] ((x >> 16) as u8));
    buf.push(#[verifier::truncate] ((x >> 24) as u8));
    proof {
        assert(x >> 0 == x) by (bit_vector);
        assert forall|i: int| 0 <= i < 4 implies #[trigger] buf@[at + i] == le_byte(x, i) by {
            assert(i == 0 || i == 1 || i == 2 || i == 3);
        }
        lemma_le32_at(buf@, at, x);
    }
}

/// The record of a code: its two packed codes, then its factors.
pub fn pack(qv: &QuantizedVector) -> (buf: Vec<u8>)
    ensures
        buf@.len() == qv.binary_code_packed@.len() + qv.ex_code_packed@.len() + 32,
        buf@.take(qv.binary_code_packed@.len() as int) == qv.binary_code_packed@,
        buf@.subrange(qv.binary_code_packed@.len() as int, buf@.len() - 32) == qv.ex_code_packed@,
        words_at(buf@, buf@.len() - 32, qv.scalars()),
{
    let mut buf: Vec<u8> = Vec::new();
    buf.extend_from_slice(qv.binary_code_packed.as_slice());
    proof {
        assert(buf@ =~= qv.binary_code_packed@);
    }
    buf.extend_from_slice(qv.ex_code_packed.as_slice());
    proof {
        assert(buf@ =~= qv.binary_code_packed@ + qv.ex_code_packed@);
    }
    let ghost at = buf@.len() as int;
    let ghost front = buf@;
    let words: [u32; 8] = [
        qv.delta,
        qv.vl,
        qv.f_add,
        qv.f_rescale,
        qv.f_error,
        qv.residual_norm,
        qv.f_add_ex,
        qv.f_rescale_ex,
    ];
    for i in 0..8usize
        invariant
            words@ == qv.scalars(),
            at == front.len(),
            buf@.len() == at + 4 * i,
            forall|p: int| 0 <= p < at ==> #[trigger] buf@[p] == front[p],
            forall|j: int| 0 <= j < i ==> #[trigger] le32_at(buf@, at + 4 * j) == words@[j],
    {
        let ghost before = buf@;
        push_le32(&mut buf, words[i]);
        proof {
            assert forall|j: int| 0 <= j < i + 1 implies #[trigger] le32_at(buf@, at + 4 * j)
                == words@[j] by {
                if j < i {
                    assert(le32_at(before, at + 4 * j) == words@[j]);
                }
            }
        }
    }
    proof {
        assert(buf@.take(qv.binary_code_packed@.len() as int) =~= qv.binary_code_packed@);
        assert(buf@.subrange(qv.binary_code_packed@.len() as int, buf@.len() - 32)
            =~= qv.ex_code_packed@);
    }
    buf
}

/// The code that a record of `padded_dims` dimensions holds.
pub fn unpack(bytes: &[u8], padded_dims: usize, ex_bits: usize) -> (qv: QuantizedVector)
    requires
        padded_dims * ex_bits <= usize::MAX,
        record_len(padded_dims as int, ex_bits as int) <= bytes@.len(),
    ensures
        qv.binary_code_packed@ == bytes@.take(bytes_for(padded_dims as int)),
        qv.ex_code_packed@ == bytes@.subrange(
            bytes_for(padded_dims as int),
            record_len(padded_dims as int, ex_bits as int) - 32,
        ),
        words_at(bytes@, record_len(padded_dims as int, ex_bits as int) - 32, qv.scalars()),
        qv.dim == padded_dims,
        qv.ex_bits == ex_bits as u8,
{
    proof {
        assert(bytes@.len() == bytes.len());
    }
    let binary_bytes: usize = bytes_for_bits(padded_dims);
    let pos: usize = binary_bytes + ex_bytes(padded_dims, ex_bits);
    let binary_code_packed: Vec<u8> = vstd::slice::slice_to_vec(&bytes[0..binary_bytes]);
    let ex_code_packed: Vec<u8> = vstd::slice::slice_to_vec(&bytes[binary_bytes..pos]);
    let qv = QuantizedVector {
        binary_code_packed,
        ex_code_packed,
        ex_bits: #[verifier::truncate] (ex_bits as u8),
        dim: padded_dims,
        delta: read_le32(bytes, pos),
        vl: read_le32(bytes, pos + 4),
        f_add: read_le32(bytes, pos + 8),
        f_rescale: read_le32(bytes, pos + 12),
        f_error: read_le32(bytes, pos + 16),
        residual_norm: read_le32(bytes, pos + 20),
        f_add_ex: read_le32(bytes, pos + 24),
        f_rescale_ex: read_le32(bytes, pos + 28),
    };
    proof {
        assert forall|i: int| 0 <= i < 8 implies #[trigger] le32_at(bytes@, pos + 4 * i)
            == qv.scalars()[i] by {
            assert(i == 0 || i == 1 || i == 2 || i == 3 || i == 4 || i == 5 || i == 6 || i == 7);
        }
    }
    qv
}

/// Unpacking a packed code gives it back, when the lengths of its packed
/// codes are those of its dimensions and extension bits.
pub proof fn law_unpack_inverts_pack(
    qv: QuantizedVector,
    bytes: Seq<u8>,
    back: QuantizedVector,
    padded_dims: int,
    ex_bits: int,
)
    requires
        padded_dims >= 0,
        ex_bits >= 0,
        qv.binary_code_packed@.len() == bytes_for(padded_dims),
        qv.ex_code_packed@.len() == ex_len(padded_dims, ex_bits),
        bytes.len() == qv.binary_code_packed@.len() + qv.ex_code_packed@.len() + 32,
        bytes.take(qv.binary_code_packed@.len() as int) == qv.binary_code_packed@,
        bytes.subrange(qv.binary_code_packed@.len() as int, bytes.len() - 32)
            == qv.ex_code_packed@,
        words_at(bytes, bytes.len() - 32, qv.scalars()),
        back.binary_code_packed@ == bytes.take(bytes_for(padded_dims)),
        back.ex_code_packed@ == bytes.subrange(
            bytes_for(padded_dims),
            record_len(padded_dims, ex_bits) - 32,
        ),
        words_at(bytes, record_len(padded_dims, ex_bits) - 32, back.scalars()),
    ensures
        bytes.len() == record_len(padded_dims, ex_bits),
        back.binary_code_packed@ == qv.binary_code_packed@,
        back.ex_code_packed@ == qv.ex_code_packed@,
        back.scalars() == qv.scalars(),
{
    assert forall|i: int| 0 <= i < 8 implies back.scalars()[i] == qv.scalars()[i] by {
        assert(le32_at(bytes, bytes.len() - 32 + 4 * i) == qv.scalars()[i]);
    }
    assert(back.scalars() =~= qv.scalars());
}

/// The parts of a record follow one another: a bit for every dimension, the
/// extension codes, and eight words.
pub proof fn law_record_parts_follow(padded_dims: int, ex_bits: int)
    ensures
        8 * (record_len(padded_dims, ex_bits) - ex_len(padded_dims, ex_bits) - 32) - 8
            < padded_dims <= 8 * (record_len(padded_dims, ex_bits) - ex_len(padded_dims, ex_bits)
            - 32),
        padded_dims % 16 == 0 && (ex_bits == 1 || ex_bits == 2 || ex_bits == 6) ==> 8 * ex_len(
            padded_dims,
            ex_bits,
        ) == padded_dims * ex_bits,
        ex_bits > 0 && ex_bits != 1 && ex_bits != 2 && ex_bits != 6 ==> 8 * ex_len(
            padded_dims,
            ex_bits,
        ) - 8 < padded_dims * ex_bits <= 8 * ex_len(padded_dims, ex_bits),
        ex_bits == 0 ==> ex_len(padded_dims, ex_bits) == 0,
{
    assert(ex_bits == 1 ==> padded_dims * ex_bits == padded_dims);
    assert(ex_bits == 2 ==> padded_dims * ex_bits == 2 * padded_dims);
    assert(ex_bits == 6 ==> padded_dims * ex_bits == 6 * padded_dims);
}

} // verus!
