use rand::rngs::StdRng;
use rand::{Rng, SeedableRng};
use vector_experiments::kmeans::superkmeans::common::{bits_of_key, ordered_key};
use vector_experiments::metrics::{top_k_by_score, ScoredDoc};
use vector_experiments::quantization::turboquant::bench::{
    slot_documents, NoDocs, TurboQuantBench, TurboQuantVariant,
};
use vector_experiments::quantization::turboquant::codebook::Codebook;
use vector_experiments::quantization::turboquant::distance::{
    build_sign_mask_table, TurboQuantQuery,
};
use vector_experiments::quantization::turboquant::quantizer::{
    record_indices, QjlProjectionKind, TurboQuantizer,
};
use vector_experiments::quantization::turboquant::record::{
    bytes_per_record, norm_offset, read_norm, stage1_bytes, stage2_bytes, stage2_offset,
    write_norm,
};
use vector_experiments::quantization::turboquant::scoring::{
    score_batch, score_batch_finish, score_batch_scalar, score_batch_stage1, BatchedQueryLut,
};
use vector_experiments::quantization::turboquant::transposed::{
    batch_bytes, batch_gamma, batch_gammas_offset, batch_stage1_index, batch_stage2_sign,
    batch_stage2_t_offset, cluster_bytes, codebook_levels, encode_batch, extract_record,
    is_supported_bit_width, stage1_t_bytes, stage2_t_bytes, BATCH_DOCS, TRANSPOSED_BIT_WIDTH,
};

/// What an encoder finds for one vector: indices, signs and a norm.
fn codes(d: usize, levels: u8, seed: u64) -> (Vec<u8>, Vec<bool>, f32) {
    let mut rng = StdRng::seed_from_u64(seed);
    let indices = (0..d).map(|_| rng.gen_range(0..levels)).collect();
    let signs = (0..d).map(|_| rng.gen::<bool>()).collect();
    (indices, signs, rng.gen_range(0.01..0.5f32))
}

fn quantizer(d: usize, bit_width: u8) -> TurboQuantizer {
    let mut tq = TurboQuantizer::new(d, d, Some(42));
    tq.bit_width = bit_width;
    tq
}

fn record(tq: &TurboQuantizer, seed: u64) -> Vec<u8> {
    let (indices, signs, gamma) = codes(tq.padded_dim, codebook_levels(tq.bit_width) as u8, seed);
    tq.encode(&indices, &signs, gamma.to_bits())
}

#[test]
fn record_layout_b3_d768() {
    let d = 768;
    let bw = 3u8;
    // stage1: 768 * 2 bits = 1536 bits = 192 bytes
    // stage2: 768 bits = 96 bytes
    // norm: 4 bytes
    // total: 292 bytes
    assert_eq!(stage2_offset(d, bw), 192);
    assert_eq!(norm_offset(d, bw), 192 + 96);
    assert_eq!(bytes_per_record(d, bw), 192 + 96 + 4);
}

#[test]
fn record_layout_b1_has_only_stage2() {
    // bit_width=1 means just QJL signs + norm; no Stage 1 bits.
    let d = 128;
    assert_eq!(stage2_offset(d, 1), 0);
    assert_eq!(norm_offset(d, 1), 16);
    assert_eq!(bytes_per_record(d, 1), 20);
}

#[test]
fn norm_roundtrip() {
    let d = 768;
    let bw = 3;
    let mut rec = vec![0u8; bytes_per_record(d, bw)];
    write_norm(&mut rec, d, bw, 1.234_f32.to_bits());
    assert!((f32::from_bits(read_norm(&rec, d, bw)) - 1.234_f32).abs() < 1e-6);
}

#[test]
fn encode_record_size_matches_layout() {
    let tq = TurboQuantizer::new(768, 768, Some(42));
    let rec = record(&tq, 1);
    assert_eq!(rec.len(), tq.bytes_per_record());
    assert_eq!(rec.len(), 384 + 96 + 4);
}

#[test]
fn encode_is_deterministic_for_same_seed() {
    let tq_a = TurboQuantizer::new(256, 256, Some(42));
    let tq_b = TurboQuantizer::new(256, 256, Some(42));
    assert_eq!(tq_a, tq_b);
    assert_eq!(record(&tq_a, 7), record(&tq_b, 7));
}

#[test]
fn encode_into_matches_encode() {
    let tq = TurboQuantizer::new(256, 256, Some(42));
    let (indices, signs, gamma) = codes(256, 16, 11);
    let out1 = tq.encode(&indices, &signs, gamma.to_bits());
    let mut out2 = vec![0u8; tq.bytes_per_record()];
    tq.encode_into(&indices, &signs, gamma.to_bits(), &mut out2);
    assert_eq!(out1, out2);
}

#[test]
fn seeds_and_projection_are_kept() {
    let tq = TurboQuantizer::new(100, 128, None);
    assert_eq!(tq.rotator_seed, 42);
    assert_eq!(tq.qjl_seed, 42u64.wrapping_add(0x9E37_79B9_7F4A_7C15));
    assert_eq!(tq.qjl_kind, QjlProjectionKind::Srht);
    assert_eq!(tq.bit_width, 5);
    let tq =
        TurboQuantizer::new_with_qjl_projection(100, 128, Some(7), QjlProjectionKind::Gaussian);
    assert_eq!(tq.rotator_seed, 7);
    assert_eq!(tq.qjl_kind, QjlProjectionKind::Gaussian);
}

#[test]
fn encoded_indices_come_back() {
    let tq = quantizer(64, 5);
    let (indices, signs, gamma) = codes(64, 16, 3);
    let rec = tq.encode(&indices, &signs, gamma.to_bits());
    assert_eq!(record_indices(&rec, 64, 5), indices);
    assert_eq!(read_norm(&rec, 64, 5), gamma.to_bits());
    assert_eq!(stage1_bytes(&rec, 64, 5).len(), 32);
    assert_eq!(stage2_bytes(&rec, 64, 5).len(), 8);
    let centroids: Vec<f32> = (0..16).map(|i| i as f32 * 0.5).collect();
    let mut out = vec![0.0f32; 64];
    tq.dequantize_into(&rec, &centroids, &mut out);
    for i in 0..64 {
        assert_eq!(out[i], indices[i] as f32 * 0.5);
    }
}

#[test]
fn extract_record_roundtrips_through_encode_batch() {
    let d = 768;
    let tq = quantizer(d, TRANSPOSED_BIT_WIDTH);
    let recs: Vec<Vec<u8>> = (0..16).map(|i| record(&tq, 7_000 + i as u64)).collect();
    let rec_refs: Vec<&[u8]> = recs.iter().map(|r| r.as_slice()).collect();

    let mut batch = vec![0u8; batch_bytes(tq.padded_dim)];
    encode_batch(&rec_refs, tq.padded_dim, tq.bit_width, &mut batch);

    let bpr = recs[0].len();
    let mut extracted = vec![0u8; bpr];
    for slot in 0..16 {
        extract_record(&batch, slot, tq.padded_dim, tq.bit_width, &mut extracted);
        assert_eq!(
            extracted, recs[slot],
            "slot {slot}: extracted record does not match encoder output",
        );
    }
}

#[test]
fn extract_record_partial_batch() {
    let d = 768;
    let tq = quantizer(d, TRANSPOSED_BIT_WIDTH);
    let recs: Vec<Vec<u8>> = (0..7).map(|i| record(&tq, 8_000 + i as u64)).collect();
    let rec_refs: Vec<&[u8]> = recs.iter().map(|r| r.as_slice()).collect();

    let mut batch = vec![0u8; batch_bytes(tq.padded_dim)];
    encode_batch(&rec_refs, tq.padded_dim, tq.bit_width, &mut batch);

    let bpr = recs[0].len();
    let mut extracted = vec![0u8; bpr];
    for slot in 0..7 {
        extract_record(&batch, slot, tq.padded_dim, tq.bit_width, &mut extracted);
        assert_eq!(extracted, recs[slot], "populated slot {slot} mismatch");
    }
    for slot in 7..16 {
        extract_record(&batch, slot, tq.padded_dim, tq.bit_width, &mut extracted);
        assert!(
            extracted[..bpr - 4].iter().all(|&b| b == 0),
            "padded slot {slot} should have zero indices/signs"
        );
        let g = f32::from_le_bytes([
            extracted[bpr - 4],
            extracted[bpr - 3],
            extracted[bpr - 2],
            extracted[bpr - 1],
        ]);
        assert_eq!(g, 0.0, "padded slot {slot} γ should be zero");
    }
}

#[test]
fn batch_sizes_and_offsets() {
    assert_eq!(stage1_t_bytes(768), 6144);
    assert_eq!(stage2_t_bytes(768), 1536);
    assert_eq!(batch_bytes(768), 6144 + 1536 + 64);
    assert_eq!(batch_stage2_t_offset(768), 6144);
    assert_eq!(batch_gammas_offset(768), 6144 + 1536);
    assert_eq!(cluster_bytes(17, 768), 2 * batch_bytes(768) + 17 * 4);
    assert_eq!(cluster_bytes(0, 768), 0);
    assert!(is_supported_bit_width(4) && is_supported_bit_width(5));
    assert!(!is_supported_bit_width(3) && !is_supported_bit_width(6));
    assert_eq!(codebook_levels(4), 8);
    assert_eq!(codebook_levels(5), 16);
}

#[test]
fn batch_fields_are_those_of_the_records() {
    let tq = quantizer(64, 5);
    let recs: Vec<Vec<u8>> = (0..3).map(|i| record(&tq, i)).collect();
    let refs: Vec<&[u8]> = recs.iter().map(|r| r.as_slice()).collect();
    let mut batch = vec![0xffu8; batch_bytes(64)];
    encode_batch(&refs, 64, 5, &mut batch);
    let s1 = &batch[..batch_stage2_t_offset(64)];
    let s2 = &batch[batch_stage2_t_offset(64)..batch_gammas_offset(64)];
    let gammas = &batch[batch_gammas_offset(64)..];
    for slot in 0..3 {
        let indices = record_indices(&recs[slot], 64, 5);
        for c in 0..64 {
            assert_eq!(batch_stage1_index(s1, c, slot), indices[c]);
            let bit = (stage2_bytes(&recs[slot], 64, 5)[c / 8] >> (7 - c % 8)) & 1;
            assert_eq!(batch_stage2_sign(s2, c, slot), bit);
        }
        assert_eq!(batch_gamma(gammas, slot), read_norm(&recs[slot], 64, 5));
    }
    assert_eq!(batch_gamma(gammas, 3), 0);
}

/// A query with its tables, and scores of one record and of a batch.
struct Scores {
    per_doc: Vec<f32>,
    scalar: [f32; 16],
    rounded: [f32; 16],
    split: [f32; 16],
    bound: f32,
}

fn scores(d: usize, bit_width: u8, first_seed: u64, query_seed: u64) -> Scores {
    let tq = quantizer(d, bit_width);
    let levels = codebook_levels(bit_width);
    let recs: Vec<Vec<u8>> = (0..16).map(|i| record(&tq, first_seed + i)).collect();
    let refs: Vec<&[u8]> = recs.iter().map(|r| r.as_slice()).collect();
    let mut batch = vec![0u8; batch_bytes(d)];
    encode_batch(&refs, d, bit_width, &mut batch);

    let mut rng = StdRng::seed_from_u64(query_seed);
    let scale = 1.0 / (d as f32).sqrt();
    let rotated: Vec<f32> = (0..d).map(|_| rng.gen_range(-1.0..1.0f32) * scale).collect();
    let qjl: Vec<f32> = (0..d).map(|_| rng.gen_range(-1.0..1.0f32) * scale).collect();
    let centroids: Vec<f32> = (0..levels)
        .map(|v| (v as f32 - (levels as f32 - 1.0) / 2.0) * 0.25 * scale)
        .collect();
    let query = TurboQuantQuery::new(&tq, &rotated, qjl.clone(), &centroids, &|a: f32, b: f32| {
        a * b
    });
    let plus = |a: f32, b: f32| a + b;
    let minus = |a: f32, b: f32| a - b;
    let join = |(stage1, gamma): (f32, u32), sum: f32| stage1 + f32::from_bits(gamma) * sum;
    let per_doc: Vec<f32> = recs
        .iter()
        .map(|rec| query.estimate_ip(rec, 0.0f32, &plus, &minus, &join))
        .collect();
    let mut scalar = [0.0f32; 16];
    score_batch_scalar(&query, &batch, 0.0f32, &plus, &minus, &join, &mut scalar);
    assert_eq!(per_doc, scalar.to_vec());

    let (lut, s1_levels) = query.s1_lut_view();
    assert_eq!(s1_levels, levels);
    let max_abs = lut.iter().fold(0.0f32, |m, x| m.max(x.abs()));
    let entries: Vec<i8> = lut.iter().map(|x| (x / max_abs * 127.0).round() as i8).collect();
    let table = BatchedQueryLut::new(&entries, levels, d);
    let combine = |(stage1, gamma): (i32, u32), sum: f32| {
        stage1 as f32 * max_abs / 127.0 + f32::from_bits(gamma) * sum
    };
    let mut rounded = [0.0f32; 16];
    score_batch(&table, &batch, &qjl, 0.0f32, &plus, &minus, &combine, &mut rounded);
    let partial = score_batch_stage1(&table, &batch);
    let mut split = [0.0f32; 16];
    score_batch_finish(&batch, &partial, &qjl, 0.0f32, &plus, &minus, &combine, &mut split);
    for slot in 0..16 {
        let indices = record_indices(&recs[slot], d, bit_width);
        let sum: i32 = (0..d)
            .map(|c| entries[c * levels + indices[c] as usize] as i32)
            .sum();
        assert_eq!(partial.stage1[slot], sum);
        assert_eq!(partial.gammas[slot], read_norm(&recs[slot], d, bit_width));
    }
    let correction = 5.0 * qjl.iter().map(|x| x * x).sum::<f32>().sqrt();
    let bound = partial.max_score_upper_bound(&|stage1: i32, gamma: u32| {
        ordered_key((stage1 as f32 * max_abs / 127.0 + f32::from_bits(gamma) * correction).to_bits())
    });
    Scores { per_doc, scalar, rounded, split, bound: f32::from_bits(bits_of_key(bound)) }
}

#[test]
fn upper_bound_dominates_actual_score() {
    for trial in 0..10u64 {
        let s = scores(768, TRANSPOSED_BIT_WIDTH, 10_000 + trial * 100, 9_005 + trial);
        let actual_max = s.rounded.iter().copied().fold(f32::NEG_INFINITY, f32::max);
        assert!(
            s.bound >= actual_max - 1e-4,
            "trial {trial}: upper bound {} < actual max {actual_max}",
            s.bound,
        );
    }
}

#[test]
fn estimates_add_terms_in_order() {
    let tq = quantizer(16, 5);
    let (indices, signs, gamma) = codes(16, 16, 21);
    let rec = tq.encode(&indices, &signs, gamma.to_bits());
    let rotated: Vec<i64> = (1..=16).collect();
    let centroids: Vec<i64> = (0..16).map(|v| v * v).collect();
    let query = TurboQuantQuery::new(&tq, &rotated, vec![1i64; 16], &centroids, &i64::wrapping_mul);
    let terms = query.estimate_terms(&rec);
    let stage1: i64 = (0..16).map(|i| rotated[i] * centroids[indices[i] as usize]).sum();
    assert_eq!(terms.stage1.iter().sum::<i64>(), stage1);
    assert_eq!(terms.signs, signs);
    assert_eq!(terms.gamma, gamma.to_bits());
    let set = signs.iter().filter(|&&s| s).count() as i64;
    let got = query.estimate_ip(
        &rec,
        0i64,
        &i64::wrapping_add,
        &i64::wrapping_sub,
        &|(a, g): (i64, u32), b: i64| {
            a.wrapping_mul(1000).wrapping_add(b).wrapping_add(i64::from(g != gamma.to_bits()))
        },
    );
    assert_eq!(got, stage1 * 1000 + set - (16 - set));
    assert_eq!((query.padded_dim(), query.bit_width()), (16, 5));
}

#[test]
fn batched_scalar_matches_per_doc() {
    let s = scores(768, TRANSPOSED_BIT_WIDTH, 1_000, 9_001);
    for i in 0..16 {
        assert!(
            (s.scalar[i] - s.per_doc[i]).abs() < 1e-3,
            "slot {i}: batched {} vs per-doc {}",
            s.scalar[i],
            s.per_doc[i],
        );
    }
}

#[test]
fn batched_simd_close_to_per_doc() {
    let s = scores(768, TRANSPOSED_BIT_WIDTH, 2_000, 9_002);
    let mut max_err = 0.0f32;
    for i in 0..16 {
        max_err = max_err.max((s.rounded[i] - s.per_doc[i]).abs());
    }
    assert!(
        max_err < 0.05,
        "max simd-vs-per-doc error {max_err} exceeds 0.05 budget"
    );
}

#[test]
fn split_stage1_finish_matches_score_batch() {
    let s = scores(768, TRANSPOSED_BIT_WIDTH, 4_000, 9_004);
    for i in 0..16 {
        assert!(
            (s.rounded[i] - s.split[i]).abs() < 1e-3,
            "slot {i}: single {} vs split {}",
            s.rounded[i],
            s.split[i],
        );
    }
}

#[test]
fn b5_round_trip_matches_per_doc() {
    let tq = TurboQuantizer::new(768, 768, Some(42));
    assert_eq!(tq.bit_width, 5);
    let s = scores(768, 5, 5_000, 9_005);
    for slot in 0..BATCH_DOCS {
        let diff = (s.rounded[slot] - s.per_doc[slot]).abs();
        assert!(
            diff < 0.01,
            "slot {slot}: batched {} vs per-doc {} (diff {})",
            s.rounded[slot],
            s.per_doc[slot],
            diff,
        );
    }
}

#[test]
fn sign_masks_follow_the_bits() {
    let table = build_sign_mask_table();
    assert_eq!(table.len(), 256);
    assert_eq!(table[0], [0x8000_0000u32; 8]);
    assert_eq!(table[0xff], [0u32; 8]);
    assert_eq!(table[0x81][0], 0);
    assert_eq!(table[0x81][1], 0x8000_0000);
    assert_eq!(table[0x81][7], 0);
}

#[test]
fn codebook_finds_the_interval() {
    let book = Codebook {
        centroids: vec![-3.0f32, -1.0, 1.0, 3.0],
        boundaries: vec![-2, 0, 2],
        bit_width: 2,
    };
    assert_eq!(book.num_levels(), 4);
    assert_eq!(book.quantize_scalar(Some(-100)), 0);
    assert_eq!(book.quantize_scalar(Some(-1)), 1);
    assert_eq!(book.quantize_scalar(Some(1)), 2);
    assert_eq!(book.quantize_scalar(Some(100)), 3);
    assert!(book.quantize_scalar(Some(-1)) <= book.quantize_scalar(Some(1)));
    assert_eq!(book.dequantize_scalar(3), 3.0);
}

#[test]
fn quantize_extremes() {
    let signed_key = |x: f32| {
        let bits = x.to_bits() as i32;
        bits ^ (((bits >> 31) as u32) >> 1) as i32
    };
    let centroids: Vec<f32> = (0..8).map(|v| (v as f32 - 3.5) * 0.02).collect();
    let boundaries: Vec<i32> =
        centroids.windows(2).map(|w| signed_key((w[0] + w[1]) / 2.0)).collect();
    let cb = Codebook { centroids, boundaries, bit_width: 3 };
    let last = cb.centroids.len() - 1;
    assert_eq!(cb.quantize_scalar(Some(signed_key(1.0e3))) as usize, last);
    assert_eq!(cb.quantize_scalar(Some(signed_key(-1.0e3))), 0);
}

#[test]
fn bench_counts_bytes_in_both_layouts() {
    let mut bench = TurboQuantBench::new(64, 64, 42, TurboQuantVariant::Srht);
    assert_eq!(bench.variant.name(), "srht-qjl");
    assert_eq!(bench.inner.qjl_seed, 42u64.wrapping_add(0x9E37_79B9_7F4A_7C15));
    assert_eq!(TurboQuantVariant::GaussianQjl.projection(), QjlProjectionKind::Gaussian);
    assert_eq!(bench.bits(), 5);
    let rec = record(&quantizer(64, 5), 1);
    assert_eq!(bench.encode(Vec::new()), Err(NoDocs));
    assert_eq!(bench.encode(vec![rec.clone(); 17]), Ok(()));
    assert_eq!(bench.bytes_per_vector(), rec.len());
    assert_eq!(bench.total_bytes(), 17 * rec.len());
    let doc_major = bench.scoring_layout();
    assert!(bench.set_transposed(true));
    assert_eq!(bench.encode(vec![rec.clone(); 17]), Ok(()));
    assert_eq!(bench.total_bytes(), 2 * batch_bytes(64));
    assert_ne!(bench.scoring_layout(), doc_major);
}

#[test]
fn slots_past_the_last_document_are_dropped() {
    let ids: Vec<u64> = (100..120).collect();
    let scores = [0.5f32; 16];
    assert_eq!(slot_documents(&ids, 0, &scores).len(), 16);
    let tail = slot_documents(&ids, 1, &scores);
    assert_eq!(tail, vec![(116, 0.5), (117, 0.5), (118, 0.5), (119, 0.5)]);
}

#[test]
fn documents_are_ranked_in_both_layouts() {
    let (d, n) = (64usize, 37usize);
    let mut bench = TurboQuantBench::new(d, d, 42, TurboQuantVariant::Srht);
    let recs: Vec<Vec<u8>> = (0..n as u64).map(|i| record(&bench.inner, 500 + i)).collect();
    let ids: Vec<u64> = (0..n as u64).map(|i| 1_000 - i).collect();
    assert!(bench.set_transposed(true));
    bench.encode(recs.clone()).unwrap();

    let rotated: Vec<i32> = (0..d as i32).map(|i| i % 7 - 3).collect();
    let projected: Vec<i32> = (0..d as i32).map(|i| i % 5 - 2).collect();
    let centroids: Vec<i32> = (0..16).collect();
    let query = TurboQuantQuery::new(
        &bench.inner,
        &rotated,
        projected.clone(),
        &centroids,
        &i32::wrapping_mul,
    );
    let plus = i32::wrapping_add;
    let minus = i32::wrapping_sub;
    let join = |(stage1, gamma): (i32, u32), sum: i32| {
        stage1.wrapping_mul(100).wrapping_add((gamma % 50) as i32).wrapping_add(sum)
    };
    let key = |x: i32| x as u32 ^ 0x8000_0000;

    let mut expected: Vec<(u64, u32)> = (0..n)
        .map(|i| {
            let indices = record_indices(&recs[i], d, 5);
            let stage1: i32 = (0..d).map(|c| rotated[c] * indices[c] as i32).sum();
            let signs = stage2_bytes(&recs[i], d, 5);
            let sum: i32 = (0..d)
                .map(|c| if (signs[c / 8] >> (7 - c % 8)) & 1 == 1 { projected[c] } else { -projected[c] })
                .sum();
            (ids[i], key(join((stage1, read_norm(&recs[i], d, 5)), sum)))
        })
        .collect();
    expected.sort_by_key(|&(id, score)| std::cmp::Reverse((score, id)));
    expected.truncate(10);

    let pairs = |top: Vec<ScoredDoc>| top.iter().map(|x| (x.id, x.score)).collect::<Vec<_>>();
    let by_record = bench.top_k(&ids, &query, 10, 0, &plus, &minus, &join, &key);
    assert_eq!(pairs(by_record), expected);

    let entries: Vec<i8> = (0..d)
        .flat_map(|c| (0..16).map(move |v| (c, v)))
        .map(|(c, v)| (rotated[c] * v) as i8)
        .collect();
    let table = BatchedQueryLut::new(&entries, 16, d);
    let by_slot =
        bench.top_k_transposed(&ids, &table, &projected, 10, 0, &plus, &minus, &join, &key);
    assert_eq!(pairs(by_slot), expected);
}

#[test]
fn b5_ranking_matches_per_doc() {
    let s = scores(768, 5, 7_000, 8_888);
    let argsort = |scores: &[f32]| -> Vec<usize> {
        let mut idx: Vec<usize> = (0..scores.len()).collect();
        idx.sort_by(|&a, &b| scores[b].partial_cmp(&scores[a]).unwrap());
        idx
    };
    let top4_batched: Vec<usize> = argsort(&s.rounded).into_iter().take(4).collect();
    let top4_per_doc: Vec<usize> = argsort(&s.per_doc).into_iter().take(4).collect();
    let overlap = top4_batched.iter().filter(|i| top4_per_doc.contains(i)).count();
    assert!(
        overlap >= 3,
        "top-4 overlap {overlap} too low: batched={top4_batched:?} per_doc={top4_per_doc:?}",
    );
}

#[test]
fn batched_ranking_matches_per_doc() {
    let (n, k) = (256u64, 10usize);
    let mut per_doc: Vec<(u64, f32)> = Vec::new();
    let mut batched: Vec<(u64, f32)> = Vec::new();
    for start in (0..n).step_by(BATCH_DOCS) {
        let s = scores(768, TRANSPOSED_BIT_WIDTH, 5_000 + start, 9_003);
        for slot in 0..BATCH_DOCS {
            per_doc.push((start + slot as u64, s.per_doc[slot]));
            batched.push((start + slot as u64, s.rounded[slot]));
        }
    }
    assert_eq!(per_doc.len(), n as usize);
    let top = |scored: &[(u64, f32)]| -> Vec<u64> {
        let docs: Vec<ScoredDoc> = scored
            .iter()
            .map(|&(id, score)| ScoredDoc { score: ordered_key(score.to_bits()), id })
            .collect();
        top_k_by_score(&docs, k).iter().map(|doc| doc.id).collect()
    };
    let ref_top = top(&per_doc);
    let overlap = top(&batched).iter().filter(|id| ref_top.contains(id)).count();
    assert!(
        overlap >= 8,
        "top-{k} overlap only {overlap}/10 between per-doc and batched",
    );
}

#[test]
fn rounded_sums_are_near_exact_ones() {
    let (d, step) = (64usize, 10i64);
    let tq = quantizer(d, 5);
    let recs: Vec<Vec<u8>> = (0..16).map(|i| record(&tq, 900 + i)).collect();
    let refs: Vec<&[u8]> = recs.iter().map(|r| r.as_slice()).collect();
    let mut batch = vec![0u8; batch_bytes(d)];
    encode_batch(&refs, d, 5, &mut batch);
    let exact: Vec<i64> = (0..16 * d as i64).map(|i| (i * 7919) % 2401 - 1200).collect();
    let entries: Vec<i8> = exact.iter().map(|x| (x / step) as i8).collect();
    let worst = exact.iter().zip(&entries).map(|(x, &y)| (x - step * y as i64).abs()).max().unwrap();
    assert_eq!(worst, 9);
    let partial = score_batch_stage1(&BatchedQueryLut::new(&entries, 16, d), &batch);
    for slot in 0..16 {
        let indices = record_indices(&recs[slot], d, 5);
        let sum: i64 = (0..d).map(|c| exact[16 * c + indices[c] as usize]).sum();
        assert!((step * partial.stage1[slot] as i64 - sum).abs() <= d as i64 * worst);
    }
}

#[test]
fn signed_sums_stay_within_the_magnitudes() {
    let d = 32usize;
    let tq = quantizer(d, 5);
    let recs: Vec<Vec<u8>> = (0..16).map(|i| record(&tq, 950 + i)).collect();
    let refs: Vec<&[u8]> = recs.iter().map(|r| r.as_slice()).collect();
    let mut batch = vec![0u8; batch_bytes(d)];
    encode_batch(&refs, d, 5, &mut batch);
    let entries: Vec<i8> = (0..16 * d).map(|i| (i % 200) as u8 as i8).collect();
    let table = BatchedQueryLut::new(&entries, 16, d);
    let qjl: Vec<i64> = (0..d as i64).map(|i| i % 9 - 4).collect();
    let reach: i64 = qjl.iter().map(|x| x.abs()).sum();
    let score = |stage1: i32, gamma: u32, sum: i64| {
        (stage1 as i64 * 100).wrapping_add(sum.wrapping_mul((gamma % 8) as i64))
    };
    let key = |x: i64| x.wrapping_add(1 << 31) as u32;
    let partial = score_batch_stage1(&table, &batch);
    let bound =
        partial.max_score_upper_bound(&|stage1: i32, gamma: u32| key(score(stage1, gamma, reach)));
    let mut out = [0i64; 16];
    score_batch(
        &table,
        &batch,
        &qjl,
        0,
        &i64::wrapping_add,
        &i64::wrapping_sub,
        &|(stage1, gamma): (i32, u32), sum: i64| score(stage1, gamma, sum),
        &mut out,
    );
    assert!(out.iter().all(|&x| key(x) <= bound));
}
