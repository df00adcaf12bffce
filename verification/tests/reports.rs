use vector_experiments::arith::div_ceil;
use vector_experiments::bits::{bytes_for_bits, read_le32, write_le32};
use vector_experiments::dataset::{
    bioasq_medium, cohere_medium, default_dataset_root, openai_medium, DatasetArg, RowError,
    VectorRows, BIOASQ_DIMS, COHERE_DIMS, OPENAI_DIMS,
};
use vector_experiments::decimal::{decimal, format_hundredths, format_tenths, rounded_quotient};
use vector_experiments::experiment::ExperimentOutput;
use vector_experiments::fraction::{fraction_floor, fraction_round};
use vector_experiments::kmeans::experiment::{
    centroid_count, compute_recall, decode_block_size, fan_out_counts, recall_of_visited,
    vector_bytes,
    KMeansExperiment,
};
use vector_experiments::kmeans::report::{
    kmeans_header, median_text, ratio_rows, size_cells, RecallCells,
};
use vector_experiments::metrics::{metrics_for, top_k_by_score, ScoredDoc};
use vector_experiments::kmeans::superkmeans::common::ordered_key;
use vector_experiments::quantization::experiment::{
    recall_header, recall_row, reported_bytes, Measured, PlanError, QuantizationRecallExperiment,
};
use vector_experiments::quantization::factory::{
    default_only, rabitq_specs, resolve_quantizer, selected_quantizers, turboquant_specs,
    QuantizerKind, QuantizerSpec, QuantizerVariant, ResolvedQuantizer, Unresolved,
};
use vector_experiments::quantization::naivesq::NaiveSqQuantizer;
use vector_experiments::quantization::rabitq::bench::{RabitqBench, RabitqVariant};
use vector_experiments::quantization::turboquant::bench::TurboQuantVariant;
use vector_experiments::quantization::turboquant::quantizer::TurboQuantizer;
use vector_experiments::ranking::stable_order;
use vector_experiments::significand::{round_significand, DOUBLE_LIMIT, SINGLE_LIMIT};

fn strings(cells: &[&str]) -> Vec<String> {
    cells.iter().map(|c| c.to_string()).collect()
}

#[test]
fn built_in_datasets() {
    let spec = cohere_medium();
    assert_eq!((spec.name, spec.dims), ("cohere-medium", COHERE_DIMS));
    assert_eq!(spec.data_dir("/root"), "/root/cohere/cohere_medium_1m");
    assert_eq!(
        spec.file_url("test.parquet"),
        "https://assets.zilliz.com/benchmark/cohere_medium_1m/test.parquet"
    );
    assert_eq!((openai_medium().dims, bioasq_medium().dims), (OPENAI_DIMS, BIOASQ_DIMS));
    assert_eq!((COHERE_DIMS, OPENAI_DIMS, BIOASQ_DIMS), (768, 1536, 1024));
    assert_eq!(default_dataset_root(), "/tmp/vectordb_bench/dataset");
    let names: Vec<&str> = DatasetArg::All.specs().iter().map(|s| s.name).collect();
    assert_eq!(names, vec!["cohere-medium", "openai-medium", "bioasq-medium"]);
    assert_eq!(DatasetArg::OpenaiMedium.specs()[0].dir_name, "openai_medium_500k");
    assert_eq!(DatasetArg::BioasqMedium.specs().len(), 1);
    assert_eq!(DatasetArg::CohereMedium.specs()[0].source_name, "cohere");
}

#[test]
fn rows_of_a_file() {
    let mut rows: VectorRows<f32> = VectorRows::new();
    assert!(!rows.is_full(None));
    assert!(rows.is_full(Some(0)));
    assert_eq!(rows.push(7, vec![1.0, 2.0], 2), Ok(()));
    let wrong = rows.push(8, vec![1.0], 2);
    assert_eq!(wrong, Err(RowError::WrongDims { expected: 2, got: 1 }));
    assert_eq!(wrong.unwrap_err().message("f"), "expected dim 2, got 1");
    assert!(rows.is_full(Some(1)));
    assert_eq!(rows.check_count(None), Ok(()));
    assert_eq!(rows.check_count(Some(1)), Ok(()));
    let few = rows.check_count(Some(3));
    assert_eq!(few, Err(RowError::TooFewRows { expected: 3, got: 1 }));
    assert_eq!(few.unwrap_err().message("f.parquet"), "expected 3 rows from f.parquet, got 1");
}

#[test]
fn tables_are_aligned() {
    let mut out = ExperimentOutput::new(strings(&["name", "n"]));
    out.push_row(strings(&["a", "12"]));
    out.push_row(strings(&["longer", "3"]));
    assert_eq!(out.to_csv(), "name,n\na,12\nlonger,3\n");
    assert_eq!(out.widths(), vec![6, 2]);
    assert_eq!(out.width(), 2);
    assert_eq!(out.cells().len(), 2);
    assert_eq!(
        out.to_table(&[false, true]),
        "| name   |  n |\n|--------|----|\n| a      | 12 |\n| longer |  3 |\n"
    );
    out.push_extra("more\n".to_string());
    assert!(out.to_table(&[false, true]).ends_with("|  3 |\n\nmore\n"));
}

#[test]
fn best_documents_first() {
    let docs: Vec<ScoredDoc> = [(5u32, 1u64), (9, 2), (5, 3), (1, 4)]
        .iter()
        .map(|&(score, id)| ScoredDoc { score, id })
        .collect();
    let ids = |k: usize| -> Vec<u64> { top_k_by_score(&docs, k).iter().map(|d| d.id).collect() };
    assert_eq!(ids(0), Vec::<u64>::new());
    assert_eq!(ids(2), vec![2, 3]);
    assert_eq!(ids(9), vec![2, 3, 1, 4]);
}

#[test]
fn hits_of_a_ranking() {
    let r = metrics_for(&[1, 2, 3, 4], &[9, 2, 1, 4], 3);
    assert_eq!(r.ranks, vec![1, 2]);
    assert_eq!(r.truth, 3);
    let r = metrics_for(&[1, 2, 3], &[1, 2, 3], 3);
    assert_eq!((r.ranks, r.truth), (vec![0, 1, 2], 3));
    let r = metrics_for(&[1], &[1, 1], 5);
    assert_eq!((r.ranks, r.truth), (vec![0, 1], 1));
}

fn spec(kind: QuantizerKind, variant: QuantizerVariant) -> QuantizerSpec {
    QuantizerSpec { kind, variant }
}

#[test]
fn families_and_variants() {
    let all = selected_quantizers(QuantizerKind::All, QuantizerVariant::Default).unwrap();
    for s in &all {
        assert!(resolve_quantizer(*s).is_ok());
    }
    assert_eq!(
        rabitq_specs(QuantizerVariant::All).unwrap(),
        vec![
            spec(QuantizerKind::Rabitq, QuantizerVariant::Fixed),
            spec(QuantizerKind::Rabitq, QuantizerVariant::Optimal),
        ]
    );
    assert!(turboquant_specs(QuantizerVariant::Fixed).is_err());
    assert!(rabitq_specs(QuantizerVariant::GaussianQjl).is_err());
    let refused = default_only(QuantizerKind::Naivesq, QuantizerVariant::Fixed).unwrap_err();
    assert_eq!(refused.kind, QuantizerKind::Naivesq);
    assert!(refused.message().contains("Naivesq"));
    assert_eq!(
        resolve_quantizer(spec(QuantizerKind::Turboquant, QuantizerVariant::GaussianQjl)),
        Ok(ResolvedQuantizer::Turboquant(TurboQuantVariant::GaussianQjl))
    );
    assert_eq!(
        resolve_quantizer(spec(QuantizerKind::Rabitq, QuantizerVariant::Optimal)),
        Ok(ResolvedQuantizer::Rabitq(RabitqVariant::Optimal))
    );
    assert_eq!(
        resolve_quantizer(spec(QuantizerKind::All, QuantizerVariant::All)),
        Err(Unresolved::AllQuantizers)
    );
    assert_eq!(
        resolve_quantizer(spec(QuantizerKind::Turboquant, QuantizerVariant::Fixed)),
        Err(Unresolved::TurboquantVariant)
    );
    assert_eq!(
        resolve_quantizer(spec(QuantizerKind::Rabitq, QuantizerVariant::GaussianQjl)),
        Err(Unresolved::RabitqVariant)
    );
}

fn recall_experiment(k: Vec<usize>) -> QuantizationRecallExperiment {
    QuantizationRecallExperiment {
        quantizer: QuantizerKind::Rabitq,
        variant: QuantizerVariant::Fixed,
        k,
        queries: 100,
        transposed: false,
        seed: 42,
        pdx_chunk_size: 1024,
    }
}

#[test]
fn plans_of_a_recall_run() {
    let plan = recall_experiment(vec![1, 10]).plan(50, 80).unwrap();
    assert_eq!((plan.max_k, plan.query_count), (10, 50));
    assert_eq!(plan.specs, vec![spec(QuantizerKind::Rabitq, QuantizerVariant::Fixed)]);
    assert!(matches!(recall_experiment(vec![]).plan(50, 50), Err(PlanError::NoCutOffs)));
    assert!(matches!(recall_experiment(vec![1]).plan(0, 50), Err(PlanError::NoQueries)));
    let mut odd = recall_experiment(vec![1]);
    odd.variant = QuantizerVariant::GaussianQjl;
    assert!(matches!(odd.plan(5, 5), Err(PlanError::Unsupported(_))));
}

#[test]
fn rows_of_a_recall_run() {
    assert_eq!(
        recall_header().join(","),
        "method,variant,bits,bytes_per_vector,total_bytes,compression_x,k,recall,ndcg,\
         encode_seconds,query_seconds,qps"
    );
    let row = recall_row(
        "rabitq",
        "fixed",
        5,
        512,
        1024,
        10,
        Measured {
            compression: "6.0".to_string(),
            recall: "0.9".to_string(),
            ndcg: "0.95".to_string(),
            encode_seconds: "1.0".to_string(),
            query_seconds: "2.0".to_string(),
            qps: "50".to_string(),
        },
    );
    assert_eq!(row.len(), recall_header().len());
    assert_eq!(row[0], "rabitq");
    assert!(row.contains(&"512".to_string()) && row.contains(&"1024".to_string()));
    assert_eq!(reported_bytes(99, 5, 10), 99);
    assert_eq!(reported_bytes(0, 5, 10), 50);
}

fn kmeans_experiment() -> KMeansExperiment {
    KMeansExperiment {
        centroid_ratio: vec![0.001f32.to_bits()],
        iters: 10,
        sampling_fraction: 0.3f32.to_bits(),
        max_points_per_cluster: 256,
        seed: 42,
        verbose: false,
        hierarchical: false,
        hierarchical_iters_per_bisect: 5,
        duplicate_max: 1,
        duplicate_ratio: 1.0f32.to_bits(),
        nredo: 1,
        spherical: false,
        recall_k: vec![1, 10],
        recall_n: vec![0.1f32.to_bits()],
    }
}

#[test]
fn numbers_of_clusters() {
    let ratios = [
        (1000usize, 0.001f32),
        (1_000_000, 0.16),
        (10, 0.0001),
        (3, 2.0),
        (17, 0.5),
        (17, -0.5),
        (17, f32::NAN),
        (17, f32::INFINITY),
        (17, 1e30),
    ];
    for (n, ratio) in ratios {
        let k = ((n as f32 * ratio).round() as usize).clamp(1, n);
        assert_eq!(centroid_count(n, ratio.to_bits()), k, "{n} {ratio}");
    }
    let fractions = [0.001f32, 0.005, 0.05, 0.1, 1.0];
    let bits: Vec<u32> = fractions.iter().map(|f| f.to_bits()).collect();
    let counts: Vec<usize> = fractions
        .iter()
        .map(|f| ((f * 300.0).round() as i64).max(1).min(300) as usize)
        .collect();
    assert_eq!(fan_out_counts(&bits, 300), counts);
    assert_eq!(decode_block_size(0), 32768);
    assert_eq!(decode_block_size(1000), 16777);
    assert_eq!(decode_block_size(10_000_000), 64);
    assert_eq!(vector_bytes(10, 768), 30720);
}

#[test]
fn duplication_is_on_above_one() {
    let mut e = kmeans_experiment();
    assert!(!e.duplicates());
    e.duplicate_max = 4;
    assert!(!e.duplicates());
    e.duplicate_ratio = 1.2f32.to_bits();
    assert!(e.duplicates());
    e.duplicate_ratio = f32::NAN.to_bits();
    assert!(!e.duplicates());
    e.duplicate_ratio = (-2.0f32).to_bits();
    assert!(!e.duplicates());
    assert_eq!(e.variant_label(), "vanilla");
    e.hierarchical = true;
    assert_eq!(e.variant_label(), "hierarchical");
    assert_eq!(e.reported_sizes(&[0, 1, 1], &[], 2), vec![1, 2]);
    e.duplicate_ratio = 1.5f32.to_bits();
    let lists = [vec![0u32, 1], vec![1], vec![1, 0]];
    assert_eq!(e.reported_sizes(&[0, 1, 1], &lists, 2), vec![2, 3]);
}

#[test]
fn recall_counts_hits_in_visited_clusters() {
    let doc_ids = [10u64, 11, 12, 13];
    let assignments = [vec![0u32], vec![1, 2], vec![2], vec![3]];
    let truth = [vec![10u64, 11, 99, 13]];
    let r = recall_of_visited(&doc_ids, &truth, 1, &assignments, &[2, 0, 3], 3, &[1, 10], &[1, 2])
        .unwrap();
    assert_eq!(r.len(), 1);
    // One unknown neighbour is left out.
    assert_eq!(r[0].counted, vec![1, 3]);
    assert_eq!(r[0].hits, vec![vec![0, 1], vec![1, 2]]);
    assert!(recall_of_visited(&doc_ids, &[], 1, &assignments, &[], 3, &[1], &[1]).is_none());
    assert!(recall_of_visited(&doc_ids, &truth, 0, &assignments, &[], 3, &[1], &[1]).is_none());
    assert!(recall_of_visited(&doc_ids, &truth, 1, &assignments, &[], 0, &[1], &[]).is_none());
}

#[test]
fn recall_visits_the_nearest_clusters() {
    let doc_ids = [10u64, 11, 12, 13];
    let assignments = [vec![0u32], vec![1], vec![2], vec![3]];
    let truth = [vec![10u64, 11], vec![12, 13]];
    let centroids = [0.0f32, 1.0, 5.0, 9.0];
    let queries = [0.4f32, 8.0];
    let distance = |i: usize, j: usize| {
        let x = queries[i] - centroids[j];
        ordered_key((x * x).to_bits())
    };
    let part = [0.25f32.to_bits(), 0.5f32.to_bits()];
    let recall = |n_queries: usize, part: &[u32]| {
        compute_recall(&distance, &doc_ids, &truth, n_queries, 4, &assignments, &[1, 2], part)
    };
    let r = recall(2, &part).unwrap();
    assert_eq!(r[0].hits, vec![vec![1, 1], vec![1, 2]]);
    assert_eq!(r[1].hits, vec![vec![0, 1], vec![1, 2]]);
    assert!(recall(0, &part).is_none());
    assert!(recall(2, &[]).is_none());
}

#[test]
fn recall_grows_with_visited_clusters_and_copies() {
    let doc_ids = [1u64, 2, 3, 4];
    let truth = [vec![1u64, 2, 3, 4]];
    let single = [vec![0u32], vec![1], vec![2], vec![3]];
    let copied = [vec![0u32], vec![1, 0], vec![2, 3], vec![3]];
    let visited = [3u32, 0, 2, 1];
    let counts = [1usize, 2, 3, 4];
    let hits = |lists: &[Vec<u32>]| {
        let r = recall_of_visited(&doc_ids, &truth, 1, lists, &visited, 4, &[4], &counts).unwrap();
        r[0].hits[0].clone()
    };
    assert_eq!(hits(&single), vec![1, 2, 3, 4]);
    assert_eq!(hits(&copied), vec![2, 4, 4, 4]);
}

#[test]
fn bytes_of_a_vector_by_method() {
    assert_eq!(NaiveSqQuantizer::new(768, 5).bytes_per_vector(), 480);
    assert_eq!(TurboQuantizer::new(768, 768, None).bytes_per_record(), 484);
    for variant in [RabitqVariant::Fixed, RabitqVariant::Optimal] {
        assert_eq!(RabitqBench::new(768, variant).bytes_per_vector(), 512);
    }
}

#[test]
fn medians_in_words() {
    assert_eq!(median_text(&[]), "0.0");
    assert_eq!(median_text(&[3, 1, 2]), "2.0");
    assert_eq!(median_text(&[1, 2]), "1.5");
    for sizes in [vec![16_777_217u32, 5], vec![16_777_217], vec![4_000_000_001, 4_000_000_111]] {
        let mut sorted = sizes.clone();
        sorted.sort();
        let mid = sorted.len() / 2;
        let median = if sorted.len() % 2 == 1 {
            sorted[mid] as f32
        } else {
            (sorted[mid - 1] as f32 + sorted[mid] as f32) / 2.0
        };
        assert_eq!(median_text(&sizes), format!("{:.1}", median));
    }
}

#[test]
fn rows_of_a_clustering_run() {
    let header = kmeans_header(&[1, 10]);
    assert_eq!(
        header,
        strings(&[
            "variant", "ratio", "k", "total_ms", "fanout", "r@1", "r@10", "min_size",
            "median_size", "max_size", "memory", "disk"
        ])
    );
    let sizes = size_cells(&[1, 2], 2, 768);
    let recall = Some(RecallCells {
        fanouts: strings(&["10.00% (n=1)", "50.00% (n=2)"]),
        values: vec![strings(&["0.1", "0.2"]), strings(&["0.3", "0.4"])],
    });
    let rows = ratio_rows("vanilla", "0.001", 2, "7.5", &recall, 2, &sizes);
    assert_eq!(rows.len(), 2);
    assert_eq!(
        rows[1],
        strings(&[
            "vanilla", "0.001", "2", "7.5", "50.00% (n=2)", "0.2", "0.4", "1", "1.5", "2",
            "6.0 KB", "9.0 KB"
        ])
    );
    let rows = ratio_rows("vanilla", "0.001", 2, "7.5", &None, 2, &sizes);
    assert_eq!(rows.len(), 1);
    assert_eq!(rows[0][4..7], strings(&["-", "-", "-"]));
    assert_eq!(rows[0].len(), header.len());
}

#[test]
fn numbers_in_words() {
    assert_eq!(decimal(0), "0");
    assert_eq!(decimal(u64::MAX), "18446744073709551615");
    assert_eq!(format_tenths(105), "10.5");
    assert_eq!(format_hundredths(7), "0.07");
    assert_eq!(rounded_quotient(5, 2), 2);
    assert_eq!(rounded_quotient(7, 2), 4);
    assert_eq!(rounded_quotient(8, 3), 3);
}

#[test]
fn rounding_to_a_significand() {
    for x in [0u128, 1, 16_777_215, 16_777_217, 16_777_219, 4_294_967_295, 1 << 60] {
        assert_eq!(round_significand(x, SINGLE_LIMIT), x as f32 as u128);
    }
    for x in [9_007_199_254_740_993u128, 9_007_199_254_740_995, u64::MAX as u128] {
        assert_eq!(round_significand(x, DOUBLE_LIMIT), x as f64 as u128);
    }
}

#[test]
fn fractions_of_counts() {
    for n in [1usize, 7, 1000, 12_345, 20_000_001] {
        for f in [0.3f32, 0.5, 0.001, 1.0, 0.9999] {
            assert_eq!(fraction_floor(n, f.to_bits()), (n as f32 * f) as usize, "{n} {f}");
            assert_eq!(fraction_round(n, f.to_bits()), (n as f32 * f).round() as usize, "{n} {f}");
        }
    }
}

#[test]
fn orders_are_stable() {
    assert_eq!(stable_order(&[3, 1, 3, 0]), vec![3, 1, 0, 2]);
    assert_eq!(stable_order(&[]), Vec::<usize>::new());
}

#[test]
fn bytes_and_words() {
    assert_eq!(div_ceil(7, 2), 4);
    assert_eq!(bytes_for_bits(9), 2);
    let mut buf = vec![0u8; 6];
    write_le32(&mut buf, 1, 0x0102_0304);
    assert_eq!(buf, vec![0, 4, 3, 2, 1, 0]);
    assert_eq!(read_le32(&buf, 1), 0x0102_0304);
}
