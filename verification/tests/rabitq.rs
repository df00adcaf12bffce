use rand::rngs::StdRng;
use rand::{Rng, SeedableRng};
use vector_experiments::quantization::rabitq::bench::{
    slot_documents, RabitqBench, RabitqVariant,
};
use vector_experiments::quantization::rabitq::fastscan::{
    accumulate_batch, batch_data_size, lowbit, pack_batch_simple, unpack_ex2, unpack_ex6, QueryLut,
    BATCH_SIZE,
};
use vector_experiments::quantization::rabitq::record::{bytes_per_record, ex_bytes, pack, unpack};
use vector_experiments::quantization::rabitq::transposed::{
    batch_bytes, is_supported_ex_bits, RabitqBatch, BATCH_DOCS,
};
use vector_experiments::quantization::rabitq::{self, QuantizedVector, RabitqError};
use vector_experiments::quantization::VectorError;

fn plus(a: f32, b: f32) -> f32 {
    a + b
}

fn binary_dot(lut: &QueryLut<f32>, code: &[u8]) -> f32 {
    let sum = lut.binary_dot(code, 0.0f32, &plus);
    assert_eq!(sum, lut.binary_dot_terms(code).iter().sum::<f32>());
    sum
}

/// The tables of a query, rounded to bytes: the bytes, the step and the sum of
/// the offsets.
fn byte_tables(lut: &QueryLut<f32>, dim: usize) -> (Vec<u8>, f32, f32) {
    let tables = dim / 4;
    let entries = lut.entries();
    assert_eq!(entries.len(), 16 * tables);
    let lo = entries.iter().copied().fold(f32::MAX, f32::min);
    let hi = entries.iter().copied().fold(f32::MIN, f32::max);
    let delta = (hi - lo) / 255.0;
    let bytes = lut.lut_u8(&|x: f32| ((x - lo) / delta).round() as u8);
    (bytes, delta, lo * tables as f32)
}

#[test]
fn test_lut_matches_scalar() {
    let dim = 64;
    let query: Vec<f32> = (0..dim).map(|i| (i as f32) / dim as f32 - 0.5).collect();
    let lut = QueryLut::new(&query, 0.0f32, &plus);

    let binary_code: Vec<u8> = (0..dim).map(|i| (i % 2) as u8).collect();
    let scalar_dot: f32 = binary_code
        .iter()
        .zip(query.iter())
        .map(|(&b, &q)| (b as f32) * q)
        .sum();

    let packed_len = dim / 8;
    let mut packed = vec![0u8; packed_len];
    for i in 0..dim {
        if binary_code[i] == 1 {
            packed[i / 8] |= 1 << (7 - (i % 8));
        }
    }

    let lut_dot = binary_dot(&lut, &packed);
    assert!(
        (scalar_dot - lut_dot).abs() < 1e-5,
        "scalar={scalar_dot} lut={lut_dot}"
    );
}

#[test]
fn test_lut_all_zeros() {
    let dim = 32;
    let query: Vec<f32> = (0..dim).map(|i| i as f32).collect();
    let lut = QueryLut::new(&query, 0.0f32, &plus);
    let packed = vec![0u8; dim / 8];
    assert_eq!(binary_dot(&lut, &packed), 0.0);
}

#[test]
fn test_lut_all_ones() {
    let dim = 32;
    let query: Vec<f32> = (0..dim).map(|i| i as f32).collect();
    let lut = QueryLut::new(&query, 0.0f32, &plus);
    let packed = vec![0xFFu8; dim / 8];
    let expected: f32 = query.iter().sum();
    let result = binary_dot(&lut, &packed);
    assert!(
        (expected - result).abs() < 1e-4,
        "expected={expected} got={result}"
    );
}

#[test]
fn test_batch_accumulate_matches_scalar() {
    let dim = 64;
    let dim_bytes = dim / 8;
    let query: Vec<f32> = (0..dim).map(|i| (i as f32) / dim as f32 - 0.5).collect();
    let lut = QueryLut::new(&query, 0.0f32, &plus);

    let codes: Vec<Vec<u8>> = (0..BATCH_SIZE)
        .map(|v| {
            (0..dim_bytes)
                .map(|b| ((v * 7 + b * 13) & 0xFF) as u8)
                .collect()
        })
        .collect();

    let scalar_dots: Vec<f32> = codes.iter().map(|c| binary_dot(&lut, c)).collect();

    let code_refs: Vec<&[u8]> = codes.iter().map(|c| c.as_slice()).collect();
    let mut transposed = vec![0u8; dim_bytes * BATCH_SIZE];
    pack_batch_simple(&code_refs, dim_bytes, &mut transposed);

    let (lut_u8, delta, sum_vl) = byte_tables(&lut, dim);
    let mut accu = [0u32; BATCH_SIZE];
    accumulate_batch(&transposed, &lut_u8, dim_bytes, &mut accu);

    for i in 0..BATCH_SIZE {
        let batch_dot = accu[i] as f32 * delta + sum_vl;
        let err = (scalar_dots[i] - batch_dot).abs();
        assert!(
            err < 0.5,
            "vec {i}: scalar={} batch={} err={err}",
            scalar_dots[i],
            batch_dot
        );
        let exact: u32 = (0..dim_bytes)
            .map(|b| {
                let byte = codes[i][b] as usize;
                lut_u8[32 * b + (byte >> 4)] as u32 + lut_u8[32 * b + 16 + (byte & 15)] as u32
            })
            .sum();
        assert_eq!(accu[i], exact);
    }
}

#[test]
fn test_pack_unpack_roundtrip() {
    let qv = QuantizedVector {
        binary_code_packed: vec![0xAA, 0x55],
        ex_code_packed: vec![],
        ex_bits: 0,
        dim: 16,
        delta: 1.5f32.to_bits(),
        vl: (-0.3f32).to_bits(),
        f_add: 2.0f32.to_bits(),
        f_rescale: (-1.0f32).to_bits(),
        f_error: 0.01f32.to_bits(),
        residual_norm: 3.14f32.to_bits(),
        f_add_ex: 0.0f32.to_bits(),
        f_rescale_ex: 0.0f32.to_bits(),
    };

    let packed = pack(&qv);
    assert_eq!(packed.len(), bytes_per_record(16, 0));

    let unpacked = unpack(&packed, 16, 0);
    assert_eq!(unpacked.binary_code_packed, qv.binary_code_packed);
    assert_eq!(unpacked.delta, qv.delta);
    assert_eq!(unpacked.vl, qv.vl);
    assert_eq!(unpacked.f_add, qv.f_add);
    assert_eq!(unpacked.f_rescale, qv.f_rescale);
    assert_eq!(unpacked.f_error, qv.f_error);
    assert_eq!(unpacked.residual_norm, qv.residual_norm);
    assert_eq!(f32::from_bits(unpacked.delta), 1.5);
}

#[test]
fn test_pack_unpack_with_ex_bits() {
    let qv = QuantizedVector {
        binary_code_packed: vec![0xFF; 4], // 32 dims / 8
        ex_code_packed: vec![0x12; 24],    // 32 * 6 / 8 = 24 bytes
        ex_bits: 6,
        dim: 32,
        delta: 1.0f32.to_bits(),
        vl: 2.0f32.to_bits(),
        f_add: 3.0f32.to_bits(),
        f_rescale: 4.0f32.to_bits(),
        f_error: 5.0f32.to_bits(),
        residual_norm: 6.0f32.to_bits(),
        f_add_ex: 7.0f32.to_bits(),
        f_rescale_ex: 8.0f32.to_bits(),
    };

    let packed = pack(&qv);
    assert_eq!(packed.len(), bytes_per_record(32, 6));
    assert_eq!(packed.len(), 4 + 24 + 32);

    let unpacked = unpack(&packed, 32, 6);
    assert_eq!(unpacked.binary_code_packed, qv.binary_code_packed);
    assert_eq!(unpacked.ex_code_packed, qv.ex_code_packed);
    assert_eq!(f32::from_bits(unpacked.f_add_ex), 7.0);
    assert_eq!(f32::from_bits(unpacked.f_rescale_ex), 8.0);
}

/// A record with random codes and factors.
fn random_record(dims: usize, ex_bits: usize, seed: u64) -> (QuantizedVector, Vec<u8>) {
    let mut rng = StdRng::seed_from_u64(seed);
    let qv = QuantizedVector {
        binary_code_packed: (0..dims / 8).map(|_| rng.gen()).collect(),
        ex_code_packed: (0..ex_bytes(dims, ex_bits)).map(|_| rng.gen()).collect(),
        ex_bits: ex_bits as u8,
        dim: dims,
        delta: rng.gen::<f32>().to_bits(),
        vl: rng.gen::<f32>().to_bits(),
        f_add: rng.gen::<f32>().to_bits(),
        f_rescale: rng.gen::<f32>().to_bits(),
        f_error: rng.gen::<f32>().to_bits(),
        residual_norm: rng.gen::<f32>().to_bits(),
        f_add_ex: rng.gen::<f32>().to_bits(),
        f_rescale_ex: rng.gen::<f32>().to_bits(),
    };
    let bytes = pack(&qv);
    (qv, bytes)
}

/// Adds the products of two codes and two query entries.
fn ex_step(acc: i64, (lo, hi, q0, q1): (u8, u8, i64, i64)) -> i64 {
    acc.wrapping_add(q0.wrapping_mul(lo as i64)).wrapping_add(q1.wrapping_mul(hi as i64))
}

/// Scores a batch of written records, and each record on its own with the
/// unrounded tables.
fn check_transposed_scores(dims: usize, n: usize, seed: u64, query_seed: u64) {
    let mut records: Vec<(QuantizedVector, Vec<u8>)> =
        (0..n).map(|i| random_record(dims, 4, seed + i as u64)).collect();
    for (qv, bytes) in &mut records {
        qv.f_rescale_ex = (f32::from_bits(qv.f_rescale_ex) * 0.01).to_bits();
        *bytes = pack(qv);
    }
    let refs: Vec<&[u8]> = records.iter().map(|r| r.1.as_slice()).collect();
    let batch = RabitqBatch::encode(&refs, dims, 4);

    let mut rng = StdRng::seed_from_u64(query_seed);
    let mut query: Vec<f32> = (0..dims).map(|_| rng.gen_range(-1.0..1.0f32)).collect();
    let norm = query.iter().map(|x| x * x).sum::<f32>().sqrt();
    for x in &mut query {
        *x /= norm;
    }
    let lut = QueryLut::new(&query, 0.0f32, &plus);
    let (lut_u8, delta, sum_vl) = byte_tables(&lut, dims);
    let score = |binary: f32, ex: f32, add: u32, rescale: u32| {
        -(f32::from_bits(add) + f32::from_bits(rescale) * (16.0 * binary + ex))
    };
    let mut scores = [0.0f32; 32];
    batch.score(
        &lut_u8,
        &query,
        dims,
        0.0f32,
        &|acc: f32, (lo, hi, q0, q1): (u8, u8, f32, f32)| acc + lo as f32 * q0 + hi as f32 * q1,
        &|(sum, ex): (u32, f32), (add, rescale): (u32, u32)| {
            score(sum as f32 * delta + sum_vl, ex, add, rescale)
        },
        &mut scores,
    );
    for (idx, (qv, bytes)) in records.iter().enumerate() {
        let back = unpack(bytes, dims, 4);
        let ex: f32 = (0..dims)
            .map(|d| {
                let byte = back.ex_code_packed[d / 2];
                (if d % 2 == 0 { byte & 15 } else { byte >> 4 }) as f32 * query[d]
            })
            .sum();
        let binary = binary_dot(&lut, &back.binary_code_packed);
        let expected = score(binary, ex, qv.f_add_ex, qv.f_rescale_ex);
        assert!(
            (scores[idx] - expected).abs() < 5e-3,
            "idx={idx} transposed={} doc_major={expected}",
            scores[idx]
        );
    }
}

#[test]
fn transposed_scores_match_doc_major_ex4() {
    check_transposed_scores(128, 17, 1000, 9999);
}

#[test]
fn transposed_scores_match_doc_major_optimal_ex4() {
    check_transposed_scores(128, 12, 2000, 7777);
}

#[test]
fn transposed_partial_batch_matches_doc_major() {
    check_transposed_scores(96, 7, 3000, 8888);
}

fn check_batch(dims: usize, n: usize, seed: u64) {
    let ex_bits = 4;
    let records: Vec<(QuantizedVector, Vec<u8>)> = (0..n)
        .map(|i| random_record(dims, ex_bits, seed + i as u64))
        .collect();
    let refs: Vec<&[u8]> = records.iter().map(|r| r.1.as_slice()).collect();
    let batch = RabitqBatch::encode(&refs, dims, ex_bits);
    assert_eq!(batch.bytes(), batch_bytes(dims, ex_bits));
    let lut_u8: Vec<u8> = (0..4 * dims).map(|i| (i * 31 % 256) as u8).collect();
    let sums = batch.binary_sums(&lut_u8, dims);
    for (slot, (qv, _)) in records.iter().enumerate() {
        let expected: u32 = qv
            .binary_code_packed
            .iter()
            .enumerate()
            .map(|(b, &byte)| {
                lut_u8[32 * b + (byte >> 4) as usize] as u32
                    + lut_u8[32 * b + 16 + (byte & 15) as usize] as u32
            })
            .sum();
        assert_eq!(sums[slot], expected, "slot {slot}");
        assert_eq!(
            batch.factors(slot),
            (qv.f_add, qv.f_rescale, qv.f_add_ex, qv.f_rescale_ex)
        );
        for dim in 0..dims {
            let byte = qv.ex_code_packed[dim / 2];
            let code = if dim % 2 == 0 { byte & 15 } else { byte >> 4 };
            assert_eq!(batch.ex_code(dim, slot), code, "slot {slot} dim {dim}");
        }
    }
    let query: Vec<i64> = (0..dims as i64).map(|d| d - 40).collect();
    let mut scores = [0i64; 32];
    batch.score(
        &lut_u8,
        &query,
        dims,
        0i64,
        &ex_step,
        &|(sum, dot): (u32, i64), (add, rescale): (u32, u32)| {
            (sum as i64 + add as i64 + 3 * (rescale as i64)).wrapping_add(dot.wrapping_mul(7))
        },
        &mut scores,
    );
    for (slot, (qv, _)) in records.iter().enumerate() {
        let dot: i64 = (0..dims).map(|d| batch.ex_code(d, slot) as i64 * query[d]).sum();
        let expected =
            sums[slot] as i64 + 7 * dot + qv.f_add_ex as i64 + 3 * qv.f_rescale_ex as i64;
        assert_eq!(scores[slot], expected, "slot {slot}");
    }
    for slot in n..BATCH_DOCS {
        assert_eq!(batch.factors(slot), (0, 0, 0, 0));
        assert_eq!(batch.ex_code(0, slot), 0);
    }
}

#[test]
fn full_and_partial_batches_hold_their_records() {
    check_batch(128, 17, 1000);
    check_batch(128, 32, 2000);
    check_batch(96, 7, 3000);
}

#[test]
fn batches_support_four_extension_bits() {
    assert!(is_supported_ex_bits(4));
    for bits in [0usize, 2, 6] {
        assert!(!is_supported_ex_bits(bits));
    }
}

#[test]
fn record_sizes() {
    assert_eq!(bytes_per_record(768, 4), 96 + 384 + 32);
    assert_eq!(rabitq::bytes_per_record(768, 0), 96 + 32);
    assert_eq!(ex_bytes(768, 0), 0);
    assert_eq!(batch_data_size(96), 96 * 32 + 3 * 4 * 32);
}

#[test]
fn lowest_set_bit() {
    assert_eq!(lowbit(12), 4);
    assert_eq!(lowbit(1), 1);
    assert_eq!(lowbit(0), 0);
}

#[test]
fn two_bit_codes_are_interleaved() {
    // One byte holds the codes of dimensions i, i + 4, i + 8 and i + 12.
    let codes = unpack_ex2(&[0b11_10_01_00, 0, 0, 0b00_00_00_01], 16);
    assert_eq!(codes[0], 0);
    assert_eq!(codes[4], 1);
    assert_eq!(codes[8], 2);
    assert_eq!(codes[12], 3);
    assert_eq!(codes[3], 1);
    assert_eq!(unpack_ex2(&[], 15).len(), 0);
}

#[test]
fn six_bit_codes_join_two_parts() {
    // Eight bytes of lower nibbles, then four bytes of upper pairs.
    let codes = unpack_ex6(&[0xff; 12], 16);
    assert_eq!(codes, vec![63u8; 16]);
    let codes = unpack_ex6(&[0u8; 12], 16);
    assert_eq!(codes, vec![0u8; 16]);
}

#[test]
fn bench_counts_bytes() {
    let (_, rec) = random_record(128, 4, 5);
    let mut bench = RabitqBench::new(128, RabitqVariant::Optimal);
    assert_eq!(bench.variant.name(), "optimal");
    assert_eq!(RabitqVariant::Fixed.name(), "fixed");
    assert_eq!(bench.bits(), 5);
    assert_eq!(bench.ex_bits(), 4);
    assert_eq!(bench.scoring_layout(), "doc-major");
    bench.encode(vec![rec.clone(); 3]);
    assert_eq!(bench.total_bytes(), 3 * rec.len());
    assert_eq!(bench.bytes_per_vector(), rec.len());
    assert!(bench.set_transposed(true));
    assert_eq!(bench.scoring_layout(), "transposed");
    bench.encode(vec![rec.clone(); 33]);
    assert_eq!(bench.total_bytes(), 2 * batch_bytes(128, 4));
    assert_eq!(bench.bytes_per_vector(), (2 * batch_bytes(128, 4) + 32) / 33);
    assert!(!bench.set_transposed(false));
}

#[test]
fn transposed_documents_are_ranked_by_score() {
    let (dims, n) = (64usize, 40usize);
    let records: Vec<(QuantizedVector, Vec<u8>)> =
        (0..n as u64).map(|i| random_record(dims, 4, 100 + i)).collect();
    let mut bench = RabitqBench::new(dims, RabitqVariant::Fixed);
    assert!(bench.set_transposed(true));
    bench.encode(records.iter().map(|r| r.1.clone()).collect());
    let ids: Vec<u64> = (0..n as u64).map(|i| 90 - i).collect();
    let lut_u8: Vec<u8> = (0..4 * dims).map(|i| (i * 31 % 256) as u8).collect();
    let query: Vec<i64> = (0..dims as i64).map(|d| d - 40).collect();
    let combine =
        |(sum, dot): (u32, i64), (add, _): (u32, u32)| {
            (sum as i64 + (add % 100) as i64).wrapping_add(dot.wrapping_mul(7))
        };
    let key = |x: i64| x.wrapping_add(0x8000_0000) as u32;
    let mut expected: Vec<(u64, u32)> = records
        .iter()
        .zip(&ids)
        .map(|((qv, _), &id)| {
            let sum: u32 = qv
                .binary_code_packed
                .iter()
                .enumerate()
                .map(|(b, &byte)| {
                    lut_u8[32 * b + (byte >> 4) as usize] as u32
                        + lut_u8[32 * b + 16 + (byte & 15) as usize] as u32
                })
                .sum();
            let dot: i64 = (0..dims)
                .map(|d| {
                    let byte = qv.ex_code_packed[d / 2];
                    let code = if d % 2 == 0 { byte & 15 } else { byte >> 4 };
                    code as i64 * query[d]
                })
                .sum();
            (id, key(combine((sum, dot), (qv.f_add_ex, qv.f_rescale_ex))))
        })
        .collect();
    expected.sort_by_key(|&(id, score)| std::cmp::Reverse((score, id)));
    expected.truncate(12);
    let top = bench.top_k_transposed(
        &ids,
        &lut_u8,
        &query,
        12,
        0i64,
        &ex_step,
        &combine,
        &key,
    );
    let got: Vec<(u64, u32)> = top.iter().map(|x| (x.id, x.score)).collect();
    assert_eq!(got, expected);
}

#[test]
fn records_are_ranked_by_their_estimates() {
    let mut bench = RabitqBench::new(64, RabitqVariant::Optimal);
    let records: Vec<Vec<u8>> = (0..9).map(|i| random_record(64, 4, 300 + i).1).collect();
    bench.encode(records.clone());
    let estimate = |record: &[u8]| record.iter().map(|&b| b as u32).sum::<u32>();
    let ids: Vec<u64> = (0..9).map(|i| 50 - i).collect();
    let mut expected: Vec<(u64, u32)> =
        ids.iter().zip(&records).map(|(&id, r)| (id, estimate(r))).collect();
    expected.sort_by_key(|&(id, score)| std::cmp::Reverse((score, id)));
    expected.truncate(4);
    let got: Vec<(u64, u32)> =
        bench.top_k(&ids, 4, &estimate).iter().map(|x| (x.id, x.score)).collect();
    assert_eq!(got, expected);
    assert_eq!(bench.top_k(&ids[..3], 9, &estimate).len(), 3);
}

#[test]
fn documents_of_a_batch() {
    let ids: Vec<u64> = (0..40).collect();
    let scores = [1.5f32; 32];
    assert_eq!(slot_documents(&ids, 0, &scores).len(), 32);
    assert_eq!(slot_documents(&ids, 1, &scores)[7], (39, 1.5));
    assert_eq!(slot_documents(&ids, 1, &scores).len(), 8);
}

#[test]
fn error_messages() {
    assert_eq!(
        RabitqError::InvalidPersistence("bad").message(),
        "invalid persisted data: bad"
    );
    assert_eq!(RabitqError::Io("gone".to_string()).message(), "i/o error: gone");
    assert_eq!(VectorError::InvalidPersistence("bad").message(), "invalid persisted data: bad");
    assert_eq!(VectorError::Io("gone".to_string()).message(), "i/o error: gone");
}
