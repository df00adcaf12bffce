use rand::rngs::StdRng;
use rand::{Rng, SeedableRng};
use vector_experiments::kmeans::superkmeans::common::ordered_key;
use vector_experiments::quantization::naivesq::{
    unpack_code, NaiveSqError, NaiveSqQuantizer, NaiveSqQuery,
};
use vector_experiments::quantization::pdx_u8::bench::{score_hits, PdxBenchError, PdxU8Bench};
use vector_experiments::quantization::pdx_u8::candidates::{CandidateHeap, KnCand};
use vector_experiments::quantization::pdx_u8::distance_u8::{
    horizontal_chunk, horizontal_strip, vertical_full, vertical_pruning,
};
use vector_experiments::quantization::pdx_u8::layout::{
    cluster_buffer_bytes, gather_u8_embedding_from_cluster, get_pdx_dimension_split,
    scatter_u8_embedding_into_cluster, DimensionSplit,
};
use vector_experiments::quantization::pdx_u8::pruning::{
    evaluate_pruning_predicate_positions, evaluate_pruning_predicate_scalar, init_positions_array,
    reset_pruning_distances,
};
use vector_experiments::quantization::pdx_u8::search_pipeline::{
    FlatPdxU8SearchIndex, PdxEncodeError, SearchScratch,
};

#[test]
fn dimension_split_matches_pdx_static_asserts() {
    assert_eq!(
        get_pdx_dimension_split(768),
        DimensionSplit {
            vertical_dimensions: 192,
            horizontal_dimensions: 576
        }
    );
    assert_eq!(
        get_pdx_dimension_split(1024),
        DimensionSplit {
            vertical_dimensions: 256,
            horizontal_dimensions: 768
        }
    );
    assert_eq!(
        get_pdx_dimension_split(1536),
        DimensionSplit {
            vertical_dimensions: 384,
            horizontal_dimensions: 1152
        }
    );
    assert_eq!(
        get_pdx_dimension_split(128),
        DimensionSplit {
            vertical_dimensions: 64,
            horizontal_dimensions: 64
        }
    );
    assert_eq!(
        get_pdx_dimension_split(100),
        DimensionSplit {
            vertical_dimensions: 100,
            horizontal_dimensions: 0
        }
    );
    assert_eq!(
        get_pdx_dimension_split(1028),
        DimensionSplit {
            vertical_dimensions: 260,
            horizontal_dimensions: 768
        }
    );
}

#[test]
fn scatter_gather_roundtrip_random_u8() {
    let dims = 768u32;
    let n = 17usize;
    let stride = n;
    let mut buf = vec![0u8; cluster_buffer_bytes(stride, dims)];
    let mut emb = vec![0u8; dims as usize];
    let mut tmp = vec![0u8; dims as usize];
    for i in 0..n {
        for (j, b) in emb.iter_mut().enumerate() {
            *b = ((i + j) % 251) as u8;
        }
        scatter_u8_embedding_into_cluster(&mut buf, stride, i, &emb, dims);
    }
    for i in 0..n {
        gather_u8_embedding_from_cluster(&buf, stride, i, &mut tmp, dims);
        for (j, b) in emb.iter_mut().enumerate() {
            *b = ((i + j) % 251) as u8;
        }
        assert_eq!(tmp, emb, "slot {i}");
    }
}

fn quant_l2_sq(q: &[u8], d: &[u8]) -> u32 {
    q.iter()
        .zip(d.iter())
        .map(|(&a, &b)| {
            let di = i32::from(a) - i32::from(b);
            (di * di) as u32
        })
        .sum()
}

fn random_codes(n: usize, dims: usize, seed: u64) -> Vec<Vec<u8>> {
    let mut rng = StdRng::seed_from_u64(seed);
    (0..n)
        .map(|_| (0..dims).map(|_| rng.gen::<u8>()).collect())
        .collect()
}

/// Keys of distances, and a threshold below which nothing is dropped early.
fn key_of(d: u32) -> u32 {
    d
}

fn exact_threshold(worst: u32, _dims: u32) -> u32 {
    worst
}

/// One chunk: the ranking must match the full ranking by distance.
#[test]
fn single_chunk_search_matches_brute_quantized_rotated_l2() {
    let dims = 32usize;
    let n_docs = 80usize;
    let mut rng = StdRng::seed_from_u64(999);
    let mut docs = Vec::with_capacity(n_docs);
    for _ in 0..n_docs {
        let mut v = vec![0f32; dims];
        for x in &mut v {
            *x = rng.gen::<f32>() * 2.0 - 1.0;
        }
        let norm = v.iter().map(|x| x * x).sum::<f32>().sqrt().max(1e-9);
        for x in &mut v {
            *x /= norm;
        }
        docs.push(v);
    }
    let lo = docs.iter().flatten().copied().fold(f32::MAX, f32::min);
    let hi = docs.iter().flatten().copied().fold(f32::MIN, f32::max);
    let codes: Vec<Vec<u8>> = docs
        .iter()
        .map(|v| v.iter().map(|x| ((x - lo) / (hi - lo) * 255.0).round() as u8).collect())
        .collect();
    let scale = 255.0 / (hi - lo);

    let idx = FlatPdxU8SearchIndex::encode_chunked(&codes, n_docs).unwrap();
    let k = 7usize;
    let query = codes[31].clone();
    let mut scratch = SearchScratch::default();
    let key = |d: u32| ordered_key((d as f32 / (scale * scale)).to_bits());
    let got = idx.search(&query, k, &key, &|worst: u32, _: u32| worst, &mut scratch);
    assert_eq!(scratch.quantized_query, query);

    let mut brute: Vec<(usize, u32)> = codes
        .iter()
        .enumerate()
        .map(|(i, code)| (i, quant_l2_sq(&query, code)))
        .collect();
    brute.sort_by(|a, b| a.1.cmp(&b.1).then_with(|| a.0.cmp(&b.0)));
    let brute_ids: Vec<usize> = brute.into_iter().take(k).map(|(i, _)| i).collect();
    let search_ids: Vec<usize> = got.into_iter().map(|(i, _)| i).collect();
    assert_eq!(
        brute_ids, search_ids,
        "single-cluster Start path must equal exhaustive quantized ranking"
    );
}

#[test]
fn exact_thresholds_find_the_nearest_over_many_chunks() {
    for dims in [12usize, 128, 200] {
        let rows = random_codes(300, dims, 7);
        let query = random_codes(1, dims, 8).remove(0);
        let idx = FlatPdxU8SearchIndex::encode_chunked(&rows, 64).unwrap();
        assert_eq!(idx.clusters.len(), 5);
        let mut scratch = SearchScratch::default();
        let got = idx.search(&query, 10, &key_of, &exact_threshold, &mut scratch);
        let mut brute: Vec<u32> = rows.iter().map(|r| quant_l2_sq(&query, r)).collect();
        for (i, d) in &got {
            assert_eq!(*d, brute[*i]);
        }
        brute.sort();
        let keys: Vec<u32> = got.iter().map(|h| h.1).collect();
        assert_eq!(keys, brute[..10].to_vec());
    }
}

#[test]
fn equal_distances_come_by_rising_index() {
    let rows = vec![vec![3u8; 8], vec![1; 8], vec![3; 8], vec![1; 8], vec![2; 8], vec![1; 8]];
    let mut scratch = SearchScratch::default();
    let idx = FlatPdxU8SearchIndex::encode_chunked(&rows, 6).unwrap();
    let got = idx.search(&[1; 8], 5, &key_of, &exact_threshold, &mut scratch);
    assert_eq!(got, vec![(1, 0), (3, 0), (5, 0), (4, 8), (0, 32)]);
    for chunk in [6usize, 2] {
        let idx = FlatPdxU8SearchIndex::encode_chunked(&rows, chunk).unwrap();
        let all = idx.search(&[1; 8], usize::MAX, &key_of, &exact_threshold, &mut scratch);
        assert_eq!(all, vec![(1, 0), (3, 0), (5, 0), (4, 8), (0, 32), (2, 32)]);
    }
}

#[test]
fn search_finds_all_when_fewer_than_asked() {
    let rows = random_codes(5, 8, 1);
    let idx = FlatPdxU8SearchIndex::encode_chunked(&rows, 2).unwrap();
    let mut scratch = SearchScratch::default();
    let got = idx.search(&rows[3], 9, &key_of, &exact_threshold, &mut scratch);
    assert_eq!(got.len(), 5);
    assert_eq!(got[0], (3, 0));
}

#[test]
fn clusters_are_padded() {
    let rows = random_codes(300, 8, 2);
    let idx = FlatPdxU8SearchIndex::encode_chunked(&rows, 300).unwrap();
    assert_eq!(idx.clusters[0].max_capacity, 390);
    assert_eq!(idx.max_cluster_capacity(), 390);
    assert_eq!(idx.total_storage_bytes(), 390 * 8);
    let idx = FlatPdxU8SearchIndex::encode_chunked(&rows[..3], 0).unwrap();
    assert_eq!(idx.clusters.len(), 3);
    assert_eq!(idx.clusters[0].max_capacity, 256);
}

#[test]
fn unusable_rows_are_refused() {
    assert!(matches!(
        FlatPdxU8SearchIndex::encode_chunked(&[], 4),
        Err(PdxEncodeError::NoDocs)
    ));
    assert!(matches!(
        FlatPdxU8SearchIndex::encode_chunked(&[vec![1, 2], vec![3]], 4),
        Err(PdxEncodeError::DimensionMismatch)
    ));
    assert_eq!(PdxEncodeError::NoDocs.message(), "docs must not be empty");
    assert_eq!(PdxEncodeError::DimensionMismatch.message(), "dimension mismatch");
}

#[test]
fn bench_over_codes() {
    let mut bench = PdxU8Bench::new(16, 50, 7);
    assert_eq!(bench.name(), "pdx-u8-sq");
    assert_eq!(bench.variant(), "global-affine+pdx-search-chunk50-seed7");
    assert_eq!(bench.scoring_layout(), "pdx-cluster-u8");
    assert_eq!(bench.bits(), 8);
    assert!(!bench.set_transposed(true));
    assert_eq!(bench.total_bytes(), 0);
    assert_eq!(bench.encode(&[]), Err(PdxBenchError::NoDocs));
    let wrong = bench.encode(&[vec![0u8; 3]]);
    assert_eq!(wrong, Err(PdxBenchError::WrongDims { expected: 16, got: 3 }));
    assert_eq!(wrong.unwrap_err().message(), "dimension mismatch: expected 16, got 3");
    let unequal = bench.encode(&[vec![0u8; 16], vec![0u8; 3]]);
    assert_eq!(unequal, Err(PdxBenchError::UnequalDims));
    assert_eq!(unequal.unwrap_err().message(), "dimension mismatch");
    assert_eq!(PdxBenchError::NoDocs.message(), "docs must not be empty");
    let rows = random_codes(120, 16, 3);
    assert_eq!(bench.encode(&rows), Ok(()));
    assert_eq!(bench.bytes_per_vector(), 16);
    assert_eq!(bench.total_bytes(), 3 * 256 * 16);
    let ids: Vec<u64> = (0..120).map(|i| 1000 + i).collect();
    let top = bench.top_k(&ids, &rows[5], 4, &key_of, &exact_threshold);
    assert_eq!(top.len(), 4);
    assert_eq!(top[0].id, 1005);
    assert_eq!(top[0].score, u32::MAX);
    assert!(top[0].score >= top[3].score);
    let docs = score_hits(&ids, &[(2, 9)]);
    assert_eq!((docs[0].id, docs[0].score), (1002, u32::MAX - 9));
}

#[test]
fn candidates_keep_the_nearest() {
    let mut heap = CandidateHeap::new();
    assert_eq!(heap.worst(), None);
    for (dist, corpus_idx) in [(5u32, 1u32), (3, 2), (9, 3)] {
        heap.push(KnCand { dist, corpus_idx });
    }
    assert_eq!(heap.len(), 3);
    assert_eq!(heap.worst(), Some(9));
    heap.maybe_push(3, KnCand { dist: 4, corpus_idx: 4 });
    heap.maybe_push(3, KnCand { dist: 8, corpus_idx: 5 });
    let ranked: Vec<u32> = heap.into_ranked().iter().map(|c| c.corpus_idx).collect();
    assert_eq!(ranked, vec![2, 4, 1]);
}

#[test]
fn distances_of_codes() {
    assert_eq!(horizontal_chunk(&[0, 255, 3], &[255, 0, 1], 3), 2 * 65025 + 4);
    assert_eq!(horizontal_strip(&[1, 2, 3, 4], &[0, 0, 0, 0], 4), 30);
    let mut d = vec![0u32; 2];
    // Two vectors of four dimensions, interleaved by four.
    let data = [1u8, 1, 1, 1, 2, 2, 2, 2];
    vertical_full(&[0, 0, 0, 0], &data, 2, 2, 0, 4, &mut d);
    assert_eq!(d, vec![4, 16]);
    vertical_pruning(&[0, 0, 0, 0], &data, 1, 2, 0, 4, &mut d, &[1]);
    assert_eq!(d, vec![4, 32]);
}

#[test]
fn pruning_predicates() {
    let mut d = vec![7u32, 1, 9, 3];
    assert_eq!(evaluate_pruning_predicate_scalar(4, &d, 5), 2);
    let mut positions = vec![0u32; 4];
    assert_eq!(init_positions_array(4, &mut positions, 8, &d), 3);
    assert_eq!(positions[..3], [0, 1, 3]);
    assert_eq!(evaluate_pruning_predicate_positions(3, &mut positions, 5, &d), 2);
    assert_eq!(positions[..2], [1, 3]);
    reset_pruning_distances(&mut d, 2);
    assert_eq!(d, vec![0, 0, 9, 3]);
}

/// The codes of a collection, each dimension scaled to its own range.
fn scalar_codes(docs: &[Vec<f32>], bits: u8) -> Vec<Vec<u8>> {
    let levels = (1u32 << bits) as f32 - 1.0;
    let dims = docs[0].len();
    let lo: Vec<f32> = (0..dims)
        .map(|d| docs.iter().map(|v| v[d]).fold(f32::MAX, f32::min))
        .collect();
    let hi: Vec<f32> = (0..dims)
        .map(|d| docs.iter().map(|v| v[d]).fold(f32::MIN, f32::max))
        .collect();
    docs.iter()
        .map(|v| {
            (0..dims)
                .map(|d| ((v[d] - lo[d]) / (hi[d] - lo[d]).max(1e-9) * levels).round() as u8)
                .collect()
        })
        .collect()
}

#[test]
fn b5_query_matches_generic_score() {
    let docs: Vec<Vec<f32>> = (0..17)
        .map(|doc| {
            (0..13)
                .map(|dim| ((doc * 11 + dim * 7) % 31) as f32 / 31.0)
                .collect()
        })
        .collect();
    let query: Vec<f32> = (0..13).map(|dim| dim as f32 / 13.0 - 0.5).collect();
    let mut quantizer = NaiveSqQuantizer::new(13, 5);
    let rows = scalar_codes(&docs, 5);
    quantizer.encode(&rows).unwrap();
    let lut: Vec<f32> = (0..13)
        .flat_map(|dim| (0..32).map(move |c| (dim, c)))
        .map(|(dim, c)| query[dim] * c as f32 / 31.0)
        .collect();
    let q = NaiveSqQuery::new(13, 5, lut.clone());
    for doc_idx in 0..docs.len() {
        let optimized = q.score_record(&quantizer.codes[doc_idx], 0.0f32, &|a: f32, b: f32| a + b);
        let generic: f32 = (0..quantizer.dims)
            .map(|dim| {
                let code = unpack_code(&quantizer.codes[doc_idx], dim, quantizer.bits);
                assert_eq!(code, rows[doc_idx][dim]);
                lut[dim * 32 + code as usize]
            })
            .sum();
        assert!(
            (optimized - generic).abs() < 1e-5,
            "doc={doc_idx} optimized={optimized} generic={generic}"
        );
        let terms: Vec<f32> = (0..13).map(|d| lut[d * 32 + rows[doc_idx][d] as usize]).collect();
        assert_eq!(q.record_terms(&quantizer.codes[doc_idx]), terms);
        assert_eq!(q.record_codes(&quantizer.codes[doc_idx]), rows[doc_idx]);
    }
}

#[test]
fn naivesq_ranks_by_the_sum_of_entries() {
    let mut quantizer = NaiveSqQuantizer::new(3, 2);
    quantizer
        .encode(&[vec![0, 1, 2], vec![3, 3, 3], vec![1, 0, 0], vec![2, 2, 2]])
        .unwrap();
    let lut: Vec<u32> = vec![0, 1, 2, 3, 0, 10, 20, 30, 0, 100, 200, 300];
    let query = NaiveSqQuery::new(3, 2, lut);
    let ids = [7u64, 8, 9, 6, 5];
    let plus = u32::wrapping_add;
    let same = |x: u32| x;
    let top = quantizer.top_k(&ids, &query, 3, 0, &plus, &same);
    let got: Vec<(u64, u32)> = top.iter().map(|d| (d.id, d.score)).collect();
    assert_eq!(got, vec![(8, 333), (6, 222), (7, 210)]);
    assert_eq!(quantizer.top_k(&ids[..2], &query, 9, 0, &plus, &same).len(), 2);
    assert_eq!(quantizer.top_k(&ids, &query, 0, 0, &plus, &same).len(), 0);
}

#[test]
fn naivesq_scores_are_dot_products_of_what_codes_stand_for() {
    let (q, mins, spans) = ([2i64, -3, 5], [10i64, 20, -4], [7i64, 1, 3]);
    let row = vec![31u8, 0, 17];
    let mut quantizer = NaiveSqQuantizer::new(3, 5);
    quantizer.encode(&[row.clone()]).unwrap();
    let lut: Vec<i64> = (0..3)
        .flat_map(|d| (0..32).map(move |c| q[d] * (mins[d] * 31 + c * spans[d])))
        .collect();
    let query = NaiveSqQuery::new(3, 5, lut);
    let exact: i64 = (0..3).map(|d| q[d] * (mins[d] * 31 + row[d] as i64 * spans[d])).sum();
    assert_eq!(exact, -1171);
    assert_eq!(query.score_record(&quantizer.codes[0], 0, &i64::wrapping_add), exact);
}

#[test]
fn naivesq_refuses_what_it_cannot_hold() {
    let mut wide = NaiveSqQuantizer::new(2, 9);
    assert_eq!(wide.encode(&[]), Err(NaiveSqError::UnsupportedBits));
    assert_eq!(NaiveSqError::UnsupportedBits.message(), "naivesq supports bits 1..=8");
    let mut q = NaiveSqQuantizer::new(2, 4);
    assert_eq!(q.encode(&[vec![1, 2, 3]]), Err(NaiveSqError::DimensionMismatch));
    assert_eq!(NaiveSqError::DimensionMismatch.message(), "dimension mismatch");
    assert_eq!(q.encode(&[vec![1, 2]]), Ok(()));
    assert_eq!(q.codes, vec![vec![0x12]]);
    assert_eq!(q.bytes_per_vector(), 1);
    assert_eq!(NaiveSqQuantizer::new(13, 5).bytes_per_vector(), 9);
}
