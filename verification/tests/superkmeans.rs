use rand::rngs::StdRng;
use rand::{Rng, SeedableRng};
use vector_experiments::kmeans::superkmeans::algo::{
    should_stop_early, PartialChange, StopReason, SuperKMeans, SuperKMeansConfig,
};
use vector_experiments::kmeans::superkmeans::assign::{
    assign_path, coarse_assignments, coarse_count, coarse_settings, drawn_assignments,
    place_assignments,
    recall_hits, representatives, weighted_cluster, AssignPath,
};
use vector_experiments::kmeans::superkmeans::batch::{
    find_k_nearest_neighbors, find_nearest_neighbor, find_nearest_neighbor_with_pruning,
    PdxCentroidsRef,
};
use vector_experiments::kmeans::superkmeans::common::{
    align_value, bits_of_key, ordered_key, KnnCandidate, H_DIM_SIZE, MAX_KEY, ZERO_KEY,
};
use vector_experiments::kmeans::superkmeans::computers::{
    evaluate_predicate, flip_sign, init_positions_array,
};
use vector_experiments::kmeans::superkmeans::iteration::Distances;
use vector_experiments::kmeans::superkmeans::layout::{
    get_dimension_split, pdxify, pdxify_with_chunk, unpdxify, unpdxify_with_chunk, IndexPdxIvf,
};
use vector_experiments::kmeans::superkmeans::random::shuffled_indices;
use vector_experiments::kmeans::superkmeans::rows::{
    add_rows_to_clusters, copy_rows, leading_columns, scale_rows, split_rows,
};
use vector_experiments::kmeans::superkmeans::training::{TrainAction, TrainLoop};

#[test]
fn dimension_split_invariants() {
    for d in [4, 64, 128, 192, 256, 384, 512, 768, 1024, 1536] {
        let s = get_dimension_split(d);
        assert_eq!(s.horizontal_d + s.vertical_d, d, "d={d}");
        assert_eq!(s.horizontal_d % H_DIM_SIZE, 0, "d={d} horiz not multiple of H");
    }
}

#[test]
fn three_quarters_are_horizontal() {
    let horizontal = |d: usize| get_dimension_split(d).horizontal_d;
    assert_eq!([64, 65, 127, 128, 129].map(horizontal), [0, 64, 64, 64, 128]);
    assert_eq!([192, 256, 384, 768, 1024].map(horizontal), [128, 192, 320, 576, 768]);
    assert_eq!(get_dimension_split(256).vertical_d, 64);
}

#[test]
fn pdxify_roundtrips() {
    let n = 5usize;
    let d = 192usize;
    let in_vec: Vec<f32> = (0..n * d).map(|i| (i as f32) * 0.5 - 7.0).collect();
    let mut pdx = vec![0.0; n * d];
    let mut back = vec![0.0; n * d];
    pdxify_with_chunk(&in_vec, &mut pdx, n, d, 4);
    unpdxify_with_chunk(&pdx, &mut back, n, d, 4);
    assert_eq!(in_vec, back);
}

#[test]
fn index_buffer_lengths() {
    let n = 5_000usize;
    let d = 192usize;
    let idx = IndexPdxIvf::new(n, d);
    assert_eq!(idx.data_buffer_len(), n * d);
    assert_eq!(idx.indices_buffer_len(), n);
    let v = idx.num_vertical_dimensions as usize;
    assert_eq!(idx.aux_buffer_len(), n * v);
}

#[test]
fn large_matrices_roundtrip_in_blocks() {
    let n = 1500usize;
    let d = 130usize;
    let rows: Vec<u32> = (0..(n * d) as u32).collect();
    let mut blocks = vec![0u32; n * d];
    let mut back = vec![0u32; n * d];
    pdxify(&rows, &mut blocks, n, d);
    assert_ne!(rows, blocks);
    unpdxify(&blocks, &mut back, n, d);
    assert_eq!(rows, back);
    // Within a block, vertical dimensions are stored column by column.
    assert_eq!(blocks[0], rows[0]);
    assert_eq!(blocks[1], rows[d]);
    let idx = IndexPdxIvf::new(n, d);
    assert_eq!(idx.clusters.len(), 2);
    assert_eq!(idx.clusters[1].num_embeddings, 476);
    assert_eq!(idx.clusters[1].data_offset, 1024 * d);
}

fn random_rows(n: usize, d: usize, seed: u64) -> Vec<f32> {
    let mut rng = StdRng::seed_from_u64(seed);
    (0..n * d).map(|_| rng.gen_range(-1.0..1.0f32)).collect()
}

fn key(x: f32) -> u32 {
    ordered_key(x.to_bits())
}

fn value(key: u32) -> f32 {
    f32::from_bits(bits_of_key(key))
}

fn l2(a: &[f32], b: &[f32]) -> f32 {
    a.iter().zip(b).map(|(x, y)| (x - y) * (x - y)).sum()
}

#[test]
fn keys_are_ordered_as_numbers() {
    let numbers = [f32::MIN, -3.5f32, -1.0, -1e-20, 0.0, 1e-20, 1.0, 1.5, f32::MAX];
    for w in numbers.windows(2) {
        assert!(key(w[0]) < key(w[1]));
    }
    assert_eq!(key(0.0), ZERO_KEY);
    assert_eq!(key(-0.0), ZERO_KEY);
    assert!(f32::from_bits(bits_of_key(0)).is_nan());
    assert_eq!(key(f32::MAX), MAX_KEY);
    for x in numbers {
        assert_eq!(value(key(x)).to_bits(), x.to_bits());
    }
    assert_eq!(KnnCandidate::default(), KnnCandidate { index: 0, distance: MAX_KEY });
}

#[test]
fn nearest_centroids_over_several_batches() {
    let (n_x, n_y, d) = (20usize, 2500usize, 4usize);
    let x = random_rows(n_x, d, 1);
    let y = random_rows(n_y, d, 2);
    let row = |m: &[f32], i: usize| m[i * d..(i + 1) * d].to_vec();
    let distance = |i: usize, j: usize| key(l2(&row(&x, i), &row(&y, j)));
    let mut knn = vec![0u32; n_x];
    let mut keys = vec![0u32; n_x + 1];
    find_nearest_neighbor(&distance, n_x, n_y, &mut knn, &mut keys);
    assert_eq!(keys[n_x], MAX_KEY);
    let k = 7;
    let mut top = vec![0u32; n_x * k];
    let mut top_keys = vec![0u32; n_x * k];
    find_k_nearest_neighbors(&distance, n_x, n_y, k, &mut top, &mut top_keys);
    for i in 0..n_x {
        let mut all: Vec<(u32, u32)> = (0..n_y).map(|j| (distance(i, j), j as u32)).collect();
        all.sort();
        assert_eq!((keys[i], knn[i]), all[0]);
        for t in 0..k {
            assert_eq!((top_keys[i * k + t], top[i * k + t]), all[t]);
        }
    }
}

#[test]
fn negative_distances_count_as_zero() {
    let distance = |_: usize, j: usize| key(if j == 3 { -1e-3 } else { 2.0 });
    let mut knn = vec![9u32];
    let mut keys = vec![0u32];
    find_nearest_neighbor(&distance, 1, 5, &mut knn, &mut keys);
    assert_eq!((knn[0], keys[0]), (3, ZERO_KEY));
}

#[test]
fn missing_neighbours_are_marked() {
    let mut top = vec![0u32; 4];
    let mut keys = vec![0u32; 4];
    find_k_nearest_neighbors(&|_: usize, j: usize| key(j as f32), 1, 2, 4, &mut top, &mut keys);
    assert_eq!(top, vec![0, 1, u32::MAX, u32::MAX]);
    assert_eq!(keys[2], MAX_KEY);
    let mut knn = vec![5u32];
    let mut keys = vec![0u32];
    find_nearest_neighbor(&|_: usize, _: usize| MAX_KEY, 1, 2, &mut knn, &mut keys);
    assert_eq!((knn[0], keys[0]), (5, MAX_KEY));
}

#[test]
fn pruning_with_exact_thresholds_finds_the_nearest() {
    let (n_x, n_y, d) = (30usize, 1100usize, 192usize);
    let x = random_rows(n_x, d, 3);
    let y = random_rows(n_y, d, 4);
    let index = IndexPdxIvf::new(n_y, d);
    let v = index.num_vertical_dimensions as usize;
    let mut data = vec![0.0f32; n_y * d];
    pdxify(&y, &mut data, n_y, d);
    let indices: Vec<u32> = (0..n_y as u32).collect();
    let aux = leading_columns(&y, n_y, d, v);
    let centroids = PdxCentroidsRef {
        index: &index,
        pdx_data: &data,
        pdx_indices: &indices,
        aux: &aux,
    };
    let row = |m: &[f32], i: usize| m[i * d..(i + 1) * d].to_vec();
    let partial_d = 16usize;
    let partial = |i: usize, j: usize| {
        key(l2(&row(&x, i)[..partial_d], &row(&y, j)[..partial_d]))
    };
    let full = |i: usize, c: u32| key(l2(&row(&x, i), &row(&y, c as usize)));
    let extend = |acc: u32, a: &[f32], b: &[f32]| key(value(acc) + l2(a, b));
    // Rounding makes sums in another order differ a little.
    let threshold = |best: u32, _: u32| key(value(best) * 1.0001);
    let mut knn = vec![0u32; n_x];
    let mut keys = vec![0u32; n_x];
    let mut counts = vec![0usize; n_x];
    find_nearest_neighbor_with_pruning(
        &x, n_x, n_y, d, &mut knn, &mut keys, &centroids, partial_d as u32, &mut counts, &partial,
        &full, &extend, &threshold,
    );
    for i in 0..n_x {
        let own = l2(&row(&x, i), &row(&y, 0));
        assert!(value(keys[i]) <= own);
        let best = (0..n_y)
            .map(|j| l2(&row(&x, i), &row(&y, j)))
            .fold(f32::MAX, f32::min);
        assert!((value(keys[i]) - best).abs() < 1e-3);
        assert!((l2(&row(&x, i), &row(&y, knn[i] as usize)) - best).abs() < 1e-3);
        assert!(counts[i] > 0 && counts[i] <= n_y);
    }
}

#[test]
fn positions_of_survivors() {
    let d = [4u32, 9, 2, 7];
    let mut positions = [0u32; 4];
    assert_eq!(init_positions_array(&mut positions, &d, 8, 4), 3);
    assert_eq!(positions[..3], [0, 2, 3]);
    assert_eq!(evaluate_predicate(&mut positions, &d, 5, 3), 2);
    assert_eq!(positions[..2], [0, 2]);
}

#[test]
fn signs_are_flipped_by_masks() {
    let data: Vec<u32> = [1.5f32, -2.0, 3.0].iter().map(|x| x.to_bits()).collect();
    let masks = [0x8000_0000u32, 0x8000_0000, 0];
    let mut out = [0u32; 3];
    flip_sign(&data, &mut out, &masks);
    let flipped: Vec<f32> = out.iter().map(|&b| f32::from_bits(b)).collect();
    assert_eq!(flipped, vec![-1.5, 2.0, 3.0]);
    let mut back = [0u32; 3];
    flip_sign(&out, &mut back, &masks);
    assert_eq!(back.to_vec(), data);
}

#[test]
fn rows_are_moved_and_summed() {
    let data = [1i32, 2, 3, 4, 5, 6];
    assert_eq!(copy_rows(&data, &[2, 0], 2, 2), vec![5, 6, 1, 2]);
    assert_eq!(leading_columns(&data, 2, 3, 2), vec![1, 2, 4, 5]);
    let mut sums = vec![0i32; 4];
    let mut sizes = vec![0u32; 2];
    add_rows_to_clusters(&data, &[1, 0, 1], 3, 2, &mut sums, &mut sizes, &i32::wrapping_add);
    assert_eq!(sums, vec![3, 4, 6, 8]);
    assert_eq!(sizes, vec![1, 2]);
    scale_rows(&mut sums, &sizes, 2, &|x: i32, n: u32| x / n as i32);
    assert_eq!(sums, vec![3, 4, 3, 4]);
    let mut rows = vec![0i32, 0, 10, 20];
    split_rows(&mut rows, 2, 2, 0, 1, &|x: i32| x.wrapping_add(1), &|x: i32| x.wrapping_sub(1));
    assert_eq!(rows, vec![11, 19, 9, 21]);
}

#[test]
fn shuffling_permutes() {
    let order = shuffled_indices(50, 42);
    assert_eq!(order, shuffled_indices(50, 42));
    assert_ne!(order, shuffled_indices(50, 43));
    assert_ne!(order, (0..50).collect::<Vec<usize>>());
    let mut sorted = order.clone();
    sorted.sort();
    assert_eq!(sorted, (0..50).collect::<Vec<usize>>());
}

fn config(sampling: f32) -> SuperKMeansConfig {
    SuperKMeansConfig {
        sampling_fraction: sampling.to_bits(),
        data_already_rotated: true,
        ..SuperKMeansConfig::default()
    }
}

#[test]
fn default_settings() {
    let c = SuperKMeansConfig::default();
    assert_eq!(c.iters, 10);
    assert_eq!(f32::from_bits(c.sampling_fraction), 0.3);
    assert_eq!(c.max_points_per_cluster, 256);
    assert_eq!(c.seed, 42);
    let km: SuperKMeans<f32> = SuperKMeans::with_default_config(4, 8);
    assert!(km.config.unrotate_centroids);
    assert!(km.config.early_termination && !km.config.angular && !km.config.sample_queries);
    assert_eq!(km.config.objective_k, 100);
    assert!(!km.trained && km.horizontal_centroids.is_empty() && km.distances.is_empty());
    assert!(km.n_threads > 0);
    let km: SuperKMeans<f32> = SuperKMeans::new(4, 8, config(1.0));
    assert!(!km.config.unrotate_centroids);
}

#[test]
fn sample_sizes() {
    let km: SuperKMeans<f32> = SuperKMeans::new(10, 8, config(0.3));
    assert_eq!(km.compute_n_samples(1000, 10), 300);
    assert_eq!(km.compute_n_samples(100_000, 10), 2560);
    let km: SuperKMeans<f32> = SuperKMeans::new(10, 8, config(1.0));
    assert_eq!(km.compute_n_samples(1000, 10), 1000);
}

#[test]
fn steps_of_a_run_lower_the_cost() {
    let (n, d, k) = (400usize, 16usize, 8usize);
    let data = random_rows(n, d, 42);
    let mut km: SuperKMeans<f32> = SuperKMeans::new(k, d, config(1.0));
    let n_samples = km.compute_n_samples(n, k);
    km.start(n, n_samples, 0.0);
    km.generate_centroids(&data, n);
    let samples = km.sample_vectors(&data, n, n_samples);
    assert_eq!(samples, data);
    let mut course = TrainLoop::new(&km.config, d, k, 0);
    let mut costs: Vec<f32> = Vec::new();
    loop {
        match course.next_action() {
            TrainAction::Iterate { iter_idx, gemm_only } => {
                assert!(gemm_only);
                assert!(km.uses_gemm_only(iter_idx));
                let centroids = km.horizontal_centroids.clone();
                let distance = |i: usize, j: usize| {
                    key(l2(&samples[i * d..(i + 1) * d], &centroids[j * d..(j + 1) * d]))
                };
                km.begin_iteration(iter_idx, 0.0);
                km.assign_in_full(&distance, n_samples);
                costs.push(km.distances.iter().map(|&x| value(x)).sum());
                km.update_centroids(&samples, n_samples, &|a: f32, b: f32| a + b);
                km.scale_centroids(&|x: f32, m: u32| x / m as f32);
                while let Some(empty) = km.next_empty(0) {
                    let full = (0..k).find(|&c| km.can_split(c)).unwrap();
                    km.split_cluster(empty, full, &|x: f32| x * 1.001, &|x: f32| x * 0.999);
                }
                km.publish_centroids();
                km.record_iteration(iter_idx, gemm_only, km.partial_d);
                course.iterated(false, false, false);
            }
            TrainAction::ComputePartialNorms => panic!("small vectors are never pruned"),
            TrainAction::Finish => break,
        }
    }
    assert_eq!(costs.len(), 10);
    assert_eq!(km.iteration_stats.len(), 10);
    assert_eq!(km.iteration_stats[9].iteration, 10);
    for w in costs.windows(2) {
        assert!(w[1] <= w[0] * 1.001, "cost rose: {} -> {}", w[0], w[1]);
    }
    assert_eq!(km.cluster_sizes.iter().sum::<u32>(), n as u32);
    let mut back = vec![0.0f32; k * d];
    unpdxify(&km.centroids_pdx, &mut back, k, d);
    assert_eq!(back, km.horizontal_centroids);
}

/// A started run over `n` points in `d` dimensions, whose first centroids are
/// the first points.
fn started(data: &[f32], n: usize, d: usize, k: usize) -> SuperKMeans<f32> {
    let mut km: SuperKMeans<f32> = SuperKMeans::new(k, d, config(1.0));
    km.start(n, n, 0.0);
    km.horizontal_centroids = data[..k * d].to_vec();
    km.prev_centroids = data[..k * d].to_vec();
    km.publish_centroids();
    km
}

fn run_one(km: &mut SuperKMeans<f32>, data: &[f32], n: usize, iter_idx: usize, gemm_only: bool) -> usize {
    let d = km.d;
    let prev = if iter_idx == 0 {
        km.prev_centroids.clone()
    } else {
        km.horizontal_centroids.clone()
    };
    let width = km.partial_d as usize;
    let row = |i: usize| &data[i * d..(i + 1) * d];
    let centroid = |j: usize| &prev[j * d..(j + 1) * d];
    let distances = Distances {
        between: |i: usize, j: usize| key(l2(row(i), centroid(j))),
        partial: |i: usize, j: usize| key(l2(&row(i)[..width], &centroid(j)[..width])),
        known: |i: usize, c: u32| key(l2(row(i), centroid(c as usize))),
        extend: |acc: u32, a: &[f32], b: &[f32]| key(value(acc) + l2(a, b)),
        threshold: |best: u32, _: u32| key(value(best) * 1.0001),
    };
    let counts = km.run_iteration(
        &distances,
        data,
        n,
        iter_idx,
        gemm_only,
        0.0,
        &|a: f32, b: f32| a + b,
        &|x: f32, m: u32| x / m as f32,
        &|counts: &[usize]| if counts.is_empty() { PartialChange::Keep } else { PartialChange::Less(3) },
    );
    counts.len()
}

#[test]
fn an_iteration_moves_centroids_to_means() {
    let (n, d, k) = (600usize, 192usize, 300usize);
    let data = random_rows(n, d, 11);
    let mut km = started(&data, n, d, k);
    assert_eq!(run_one(&mut km, &data, n, 0, true), 0);
    for i in 0..k {
        assert_eq!(km.assignments[i], i as u32, "a first centroid stays with itself");
    }
    for c in 0..k {
        let members: Vec<usize> = (0..n).filter(|&i| km.assignments[i] == c as u32).collect();
        assert_eq!(km.cluster_sizes[c] as usize, members.len());
        let mut mean = vec![0.0f32; d];
        for &i in &members {
            for j in 0..d {
                mean[j] += data[i * d + j];
            }
        }
        for m in &mut mean {
            *m /= members.len() as f32;
        }
        assert_eq!(km.horizontal_centroids[c * d..(c + 1) * d], mean[..]);
    }
}

#[test]
fn a_pruned_iteration_agrees_with_a_full_one() {
    let (n, d, k) = (600usize, 192usize, 300usize);
    let data = random_rows(n, d, 12);
    let mut full = started(&data, n, d, k);
    let mut pruned = started(&data, n, d, k);
    run_one(&mut full, &data, n, 0, true);
    run_one(&mut pruned, &data, n, 0, true);
    full.publish_centroids();
    pruned.publish_centroids();
    let before = pruned.partial_d;
    run_one(&mut full, &data, n, 1, true);
    assert_eq!(run_one(&mut pruned, &data, n, 1, false), n);
    assert_eq!(full.assignments, pruned.assignments);
    assert_eq!(full.horizontal_centroids, pruned.horizontal_centroids);
    assert_eq!(full.prev_centroids, pruned.prev_centroids);
    assert_eq!(full.partial_d, before);
    assert_eq!(pruned.partial_d, before - 3);
}

/// A trained run of `k` clusters over `n` rows, of which a part was trained on.
fn trained(data: &[f32], n: usize, d: usize, k: usize, fraction: f32) -> SuperKMeans<f32> {
    let mut km: SuperKMeans<f32> = SuperKMeans::new(k, d, config(fraction));
    let samples = km.prepare(data, n, 0.0, &|rows: &[f32]| rows.to_vec());
    let n_samples = km.n_samples;
    run_one(&mut km, &samples, n_samples, 0, true);
    km.publish_centroids();
    km.trained = true;
    km
}

/// Assigns all rows; the coarse clusters are those of even and odd numbers.
fn assign_all(km: &mut SuperKMeans<f32>, data: &[f32], n: usize) -> Vec<u32> {
    let k = km.n_clusters;
    assign_among(km, data, n, k)
}

/// The same among the first `k` centroids.
fn assign_among(km: &mut SuperKMeans<f32>, data: &[f32], n: usize, k: usize) -> Vec<u32> {
    let d = km.d;
    let own = km.horizontal_centroids.clone();
    let width = km.initial_partial_d() as usize;
    let row = |i: usize| &data[i * d..(i + 1) * d];
    let centroid = |j: usize| &own[j * d..(j + 1) * d];
    let distances = Distances {
        between: |i: usize, j: usize| key(l2(row(i), centroid(j))),
        partial: |i: usize, j: usize| key(l2(&row(i)[..width], &centroid(j)[..width])),
        known: |i: usize, c: u32| key(l2(row(i), centroid(c as usize))),
        extend: |acc: u32, a: &[f32], b: &[f32]| key(value(acc) + l2(a, b)),
        threshold: |best: u32, _: u32| key(value(best) * 1.0001),
    };
    let between = |i: usize, j: usize| key(l2(row(i), centroid(j)));
    let coarse_of: Vec<u32> = (0..k as u32).map(|c| c % 2).collect();
    let vector_coarse: Vec<u32> = (0..n as u32).map(|i| i % 2).collect();
    km.assign_training_points(&between, k, &distances, data, n, &coarse_of, 2, &vector_coarse)
}

#[test]
fn every_path_assigns_to_the_nearest() {
    let (n, d, k) = (700usize, 192usize, 300usize);
    let data = random_rows(n, d, 21);
    for fraction in [1.0f32, 0.9, 0.5] {
        let mut km = trained(&data, n, d, k, fraction);
        let before = km.assignments.clone();
        let centroids = km.horizontal_centroids.clone();
        km.partial_d = 20;
        let found = assign_all(&mut km, &data, n);
        let nearest = km.assign(
            &|i: usize, j: usize| {
                key(l2(&data[i * d..(i + 1) * d], &centroids[j * d..(j + 1) * d]))
            },
            n,
            k,
        );
        assert_eq!(found, nearest, "fraction={fraction}");
        assert_eq!(km.partial_d, km.initial_partial_d());
        if fraction == 1.0 {
            assert_eq!(km.assignments, found);
        } else {
            assert_eq!(km.assignments, before);
        }
    }
}

#[test]
fn vectors_are_assigned_among_the_first_centroids() {
    let (all, d, k, first, n) = (1100usize, 128usize, 1100usize, 1024usize, 20usize);
    let mut km = started(&random_rows(all, d, 41), all, d, k);
    km.trained = true;
    for i in 0..all {
        km.assignments[i] = if i % 2 == 0 { 1090 } else { 7 };
        km.distances[i] = i as u32;
    }
    let before = km.assignments.clone();
    let rows = random_rows(n, d, 42);
    let found = assign_among(&mut km, &rows, n, first);
    for i in 0..n {
        let dist = |c: u32| {
            let c = c as usize;
            l2(&rows[i * d..(i + 1) * d], &km.horizontal_centroids[c * d..(c + 1) * d])
        };
        let mut best = before[i];
        for c in 0..first as u32 {
            if dist(c) < dist(best) {
                best = c;
            }
        }
        assert_eq!(found[i], best, "vector {i}");
    }
    assert!(found.iter().all(|&c| (c as usize) < first || c == 1090));
    assert_eq!(km.assignments[..n], found[..]);
    assert_eq!(km.assignments[n..], before[n..]);
    assert!((n..all).all(|i| km.distances[i] == i as u32));
    let in_all = assign_among(&mut km, &rows, n, k);
    assert!(in_all.iter().any(|&c| c as usize >= first), "all centroids are searched");
}

#[test]
fn an_iteration_leaves_what_is_past_the_samples() {
    let (n, d, k) = (600usize, 192usize, 300usize);
    let data = random_rows(n, d, 43);
    let mut km = started(&data, n, d, k);
    km.assignments[n - 1] = 5;
    km.distances[n - 1] = 77;
    run_one(&mut km, &data[..(n - 1) * d], n - 1, 0, true);
    assert_eq!((km.assignments[n - 1], km.distances[n - 1]), (5, MAX_KEY));
    km.publish_centroids();
    km.distances[n - 1] = 77;
    run_one(&mut km, &data[..(n - 1) * d], n - 1, 1, false);
    assert_eq!((km.assignments[n - 1], km.distances[n - 1]), (5, 77));
}

#[test]
fn settings_of_the_coarse_run() {
    let c = SuperKMeansConfig { seed: 9, iters: 3, angular: true, use_blas_only: true, ..config(0.3) };
    let coarse = coarse_settings(&c);
    assert_eq!((coarse.iters, coarse.seed), (10, 9));
    assert_eq!(f32::from_bits(coarse.sampling_fraction), 1.0);
    assert!(coarse.angular && coarse.data_already_rotated && !coarse.use_blas_only);
    assert_eq!(coarse.max_points_per_cluster, 256);
    assert!(coarse.unrotate_centroids && coarse.early_termination);
}

#[test]
fn small_runs_assign_by_comparing_all() {
    let (n, d, k) = (50usize, 8usize, 5usize);
    let data = random_rows(n, d, 22);
    let mut km = trained(&data, n, d, k, 1.0);
    let before = (km.assignments.clone(), km.partial_d);
    let found = assign_all(&mut km, &data, n);
    for i in 0..n {
        let dist = |c: usize| {
            l2(&data[i * d..(i + 1) * d], &km.horizontal_centroids[c * d..(c + 1) * d])
        };
        assert!((0..k).all(|c| dist(found[i] as usize) <= dist(c)));
    }
    assert_eq!((km.assignments.clone(), km.partial_d), before);
}

#[test]
fn a_prepared_run_works_on_rotated_rows() {
    let (n, d, k) = (40usize, 4usize, 3usize);
    let data = random_rows(n, d, 23);
    let negated = |rows: &[f32]| rows.iter().map(|x| -x).collect::<Vec<f32>>();
    let turned = SuperKMeansConfig { data_already_rotated: false, ..config(0.5) };
    let mut km: SuperKMeans<f32> = SuperKMeans::new(k, d, turned);
    let samples = km.prepare(&data, n, 0.0, &negated);
    assert_eq!(km.n_samples, 20);
    assert_eq!(samples.len(), 20 * d);
    let order = shuffled_indices(n, 42);
    assert_eq!(km.sampled_indices, order);
    let firsts = shuffled_indices(20, 42);
    for i in 0..20 {
        let r = order[i];
        assert_eq!(samples[i * d..(i + 1) * d], negated(&data[r * d..(r + 1) * d])[..]);
    }
    for c in 0..k {
        let r = firsts[c];
        assert_eq!(km.horizontal_centroids[c * d..(c + 1) * d], data[r * d..(r + 1) * d]);
    }
    assert_eq!(km.prev_centroids, negated(&km.horizontal_centroids));
    let mut back = vec![0.0f32; k * d];
    unpdxify(&km.centroids_pdx, &mut back, k, d);
    assert_eq!(back, km.prev_centroids);

    let mut km: SuperKMeans<f32> = SuperKMeans::new(k, d, config(1.0));
    assert_eq!(km.prepare(&data, n, 0.0, &negated), data);
    assert_eq!(km.prev_centroids, km.horizontal_centroids);
}

#[test]
fn a_finished_run_hands_out_its_centroids() {
    let (n, d, k) = (40usize, 4usize, 3usize);
    let data = random_rows(n, d, 31);
    let negated = |rows: &[f32]| rows.iter().map(|x| -x).collect::<Vec<f32>>();
    let back = SuperKMeansConfig { data_already_rotated: false, ..config(1.0) };
    let mut km: SuperKMeans<f32> = SuperKMeans::new(k, d, back);
    km.prepare(&data, n, 0.0, &negated);
    assert!(!km.trained);
    let centroids = km.finish(&negated);
    assert!(km.trained);
    assert_eq!(centroids, negated(&km.horizontal_centroids));
    let mut km = started(&data, n, d, k);
    assert_eq!(km.finish(&negated), km.horizontal_centroids);
}

#[test]
fn assignments_to_start_from() {
    let mut km: SuperKMeans<f32> = SuperKMeans::new(3, 2, config(0.5));
    km.start(4, 3, 0.0);
    km.sampled_indices = vec![3, 1, 0, 2];
    km.assignments = vec![2, 1, 0, 0];
    km.cluster_sizes = vec![0, 0, 9];
    let trained = km.starting_assignments(AssignPath::Trained, &[], 0, &[]);
    assert_eq!(trained, vec![2, 1, 0, 0]);
    let drawn = km.starting_assignments(AssignPath::Drawn, &[], 0, &[]);
    assert_eq!(drawn, vec![0, 1, 2, 2]);
    let coarse = km.starting_assignments(AssignPath::Coarse, &[0, 1, 0], 2, &[0, 0, 1, 0]);
    assert_eq!(coarse, vec![0, 1, 1, 2]);
}

#[test]
fn samples_are_rows_of_the_data() {
    let (n, d) = (40usize, 3usize);
    let data: Vec<u32> = (0..(n * d) as u32).collect();
    let mut km: SuperKMeans<u32> = SuperKMeans::new(2, d, config(0.5));
    km.start(n, 20, 0);
    let samples = km.sample_vectors(&data, n, 20);
    assert_eq!(samples.len(), 20 * d);
    for i in 0..20 {
        let r = km.sampled_indices[i];
        assert_eq!(samples[i * d..(i + 1) * d], data[r * d..(r + 1) * d]);
    }
    km.generate_centroids(&data, n);
    let first = shuffled_indices(n, 42)[0];
    assert_eq!(km.horizontal_centroids[..d], data[first * d..(first + 1) * d]);
}

#[test]
fn pruned_runs_ask_for_partial_norms_once() {
    let c = config(1.0);
    let mut course = TrainLoop::new(&c, 192, 300, 0);
    assert_eq!(course.next_action(), TrainAction::Iterate { iter_idx: 0, gemm_only: true });
    course.iterated(false, false, false);
    assert_eq!(course.next_action(), TrainAction::ComputePartialNorms);
    assert_eq!(course.next_action(), TrainAction::Iterate { iter_idx: 1, gemm_only: false });
    course.iterated(false, false, false);
    assert_eq!(course.next_action(), TrainAction::Iterate { iter_idx: 2, gemm_only: false });
    let stop = course.iterated(true, false, false);
    assert_eq!(stop.stop, Some(StopReason::ShiftBelowTolerance));
    assert_eq!(course.next_action(), TrainAction::Finish);
}

#[test]
fn reasons_to_stop() {
    let mut stalled = 0usize;
    let r = should_stop_early(true, true, true, false, 3, &mut stalled);
    assert_eq!(r.stop, Some(StopReason::ShiftBelowTolerance));
    let r = should_stop_early(false, true, true, false, 3, &mut stalled);
    assert_eq!(r.stop, Some(StopReason::CostStalled));
    assert_eq!(stalled, 0);
    let r = should_stop_early(false, true, true, false, 0, &mut stalled);
    assert_eq!((r.stop, stalled), (None, 1));
    let r = should_stop_early(false, false, true, true, 1, &mut stalled);
    assert!(r.new_best_recall);
    assert_eq!(stalled, 0);
    should_stop_early(false, false, true, false, 1, &mut stalled);
    let r = should_stop_early(false, false, true, false, 2, &mut stalled);
    assert_eq!(r.stop, Some(StopReason::RecallStalled));
    let r = should_stop_early(false, false, false, false, 2, &mut stalled);
    assert_eq!(r.stop, None);
}

#[test]
fn splitting_keeps_the_number_of_vectors() {
    let mut km: SuperKMeans<i32> = SuperKMeans::new(2, 2, config(1.0));
    km.start(7, 7, 0);
    km.cluster_sizes = vec![0, 7];
    km.horizontal_centroids = vec![0, 0, 10, 20];
    assert_eq!(km.next_empty(0), Some(0));
    assert!(km.can_split(1) && !km.can_split(0));
    km.split_cluster(0, 1, &|x: i32| x.wrapping_add(1), &|x: i32| x.wrapping_sub(1));
    assert_eq!(km.cluster_sizes, vec![3, 4]);
    assert_eq!(km.next_empty(0), None);
    assert_eq!(km.n_split, 1);
}

#[test]
fn partial_distances_stay_in_range() {
    let mut km: SuperKMeans<f32> = SuperKMeans::new(300, 192, config(1.0));
    km.start(1000, 1000, 0.0);
    let v = km.vertical_d;
    assert!(km.tune_partial_d(PartialChange::More(1000)));
    assert_eq!(km.partial_d, v);
    assert!(!km.tune_partial_d(PartialChange::More(0)));
    assert!(km.tune_partial_d(PartialChange::Less(0)));
    assert_eq!(km.partial_d, v - 1);
    assert!(km.tune_partial_d(PartialChange::Less(1000)));
    assert_eq!(km.partial_d, 16);
    assert!(!km.tune_partial_d(PartialChange::Keep));
}

#[test]
fn ways_to_assign() {
    assert_eq!(assign_path(&config(1.0), 64, 1000), AssignPath::BruteForce);
    assert_eq!(assign_path(&config(1.0), 192, 256), AssignPath::BruteForce);
    assert_eq!(assign_path(&config(1.0), 192, 300), AssignPath::Trained);
    assert_eq!(assign_path(&config(0.9), 192, 300), AssignPath::Drawn);
    assert_eq!(assign_path(&config(0.8), 192, 300), AssignPath::Coarse);
    assert_eq!(assign_path(&config(0.3), 192, 300), AssignPath::Coarse);
}

#[test]
fn first_assignments() {
    let order = [3usize, 1, 0, 2];
    assert_eq!(place_assignments(&order, &[7, 8], 2, &[5, 6], 4), vec![5, 8, 6, 7]);
    assert_eq!(weighted_cluster(&[2, 0, 3], 0), 0);
    assert_eq!(weighted_cluster(&[2, 0, 3], 1), 0);
    assert_eq!(weighted_cluster(&[2, 0, 3], 2), 2);
    assert_eq!(weighted_cluster(&[2, 0, 3], 5), 0);
    assert_eq!(representatives(&[1, 0, 1], 3), vec![1, 2, 0]);
    let coarse = coarse_assignments(&order, &[7, 8], 2, &[1, 0, 1], 2, &[0, 0, 1, 1], 4);
    assert_eq!(coarse, vec![1, 8, 2, 7]);
    for (n, root) in [(0usize, 0usize), (1, 1), (15, 3), (16, 4), (1_000_000, 1000)] {
        assert_eq!(coarse_count(n), root);
    }
}

#[test]
fn drawn_clusters_have_vectors() {
    let order: Vec<usize> = (0..200).collect();
    let sizes = [0u32, 5, 0, 95];
    let a = drawn_assignments(&order, &[1], 1, &sizes, 200, 42);
    assert_eq!(a.len(), 200);
    assert_eq!(a[0], 1);
    assert!(a[1..].iter().all(|&c| c == 1 || c == 3));
    assert!(a.contains(&3));
    let mut rng = StdRng::seed_from_u64(43);
    for &c in &a[1..] {
        assert_eq!(c, weighted_cluster(&sizes, rng.gen_range(0..100u32)));
    }
    let none = drawn_assignments(&order[..5], &[], 0, &[0, 0], 5, 1);
    assert_eq!(none, vec![0; 5]);
}

#[test]
fn hits_of_explored_clusters() {
    // Two queries with two neighbours each, one cluster explored by each.
    let hits = recall_hits(&[0, 1, 2, 3], 2, &[5, 6, 6, 6], &[5, 6], 1, 2);
    assert_eq!(hits, vec![1, 2]);
}

#[test]
fn values_are_aligned_upwards() {
    assert_eq!(align_value(0, 8), 0);
    assert_eq!(align_value(1, 8), 8);
    assert_eq!(align_value(16, 8), 16);
    assert_eq!(align_value(17, 5), 20);
}
