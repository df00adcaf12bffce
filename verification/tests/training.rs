use rand::rngs::StdRng;
use rand::{Rng, SeedableRng};
use vector_experiments::kmeans::superkmeans::algo::{
    PartialChange, SuperKMeans, SuperKMeansConfig,
};
use vector_experiments::kmeans::superkmeans::common::{bits_of_key, ordered_key};
use vector_experiments::kmeans::superkmeans::iteration::Distances;
use vector_experiments::kmeans::superkmeans::training::{TrainAction, TrainLoop};

fn make_blobs(n_per_center: usize, n_centers: usize, d: usize, seed: u64) -> (Vec<f32>, usize) {
    let mut rng = StdRng::seed_from_u64(seed);
    let mut centers = Vec::with_capacity(n_centers * d);
    for _ in 0..n_centers * d {
        centers.push(rng.gen_range(-10.0..10.0_f32));
    }
    let total = n_per_center * n_centers;
    let mut data = Vec::with_capacity(total * d);
    for c in 0..n_centers {
        for _ in 0..n_per_center {
            for dim in 0..d {
                data.push(centers[c * d + dim] + rng.gen_range(-0.5..0.5_f32));
            }
        }
    }
    (data, total)
}

fn key(x: f32) -> u32 {
    ordered_key(x.to_bits())
}

fn value(key: u32) -> f32 {
    f32::from_bits(bits_of_key(key))
}

fn l2(a: &[f32], b: &[f32]) -> f32 {
    a.iter().zip(b).map(|(x, y)| (x - y) * (x - y)).sum()
}

/// Splits a cluster, drawn by size, for each empty one.
fn split_empty(km: &mut SuperKMeans<f32>, n_samples: usize) {
    km.n_split = 0;
    let k = km.n_clusters;
    let mut rng = StdRng::seed_from_u64(km.config.seed);
    let spare = (n_samples as i64 - k as i64).max(1) as f32;
    while let Some(empty) = km.next_empty(0) {
        let mut full = 0usize;
        loop {
            let p = (km.cluster_sizes[full] as f32 - 1.0) / spare;
            let r: f32 = rng.gen_range(0.0..1.0);
            if r < p {
                break;
            }
            full = (full + 1) % k;
        }
        let eps = 1.0f32 / 1024.0;
        km.split_cluster(empty, full, &|x: f32| x * (1.0 + eps), &|x: f32| x * (1.0 - eps));
    }
}

/// Runs a whole training; gives the objective of every iteration and, for the
/// pruned ones, the share of centroids that passed the first test.
fn train(km: &mut SuperKMeans<f32>, data: &[f32], n: usize) -> (Vec<f32>, Vec<f32>) {
    let (d, k) = (km.d, km.n_clusters);
    let samples = km.prepare(data, n, 0.0, &|rows: &[f32]| rows.to_vec());
    let n_samples = km.n_samples;
    let mut objectives: Vec<f32> = Vec::new();
    let mut passed: Vec<f32> = Vec::new();
    let mut course = TrainLoop::new(&km.config, d, k, 0);
    loop {
        match course.next_action() {
            TrainAction::ComputePartialNorms => {}
            TrainAction::Finish => break,
            TrainAction::Iterate { iter_idx, gemm_only } => {
                let prev = if iter_idx == 0 {
                    km.prev_centroids.clone()
                } else {
                    km.horizontal_centroids.clone()
                };
                let partial_d = km.partial_d;
                let width = partial_d as usize;
                let row = |i: usize| &samples[i * d..(i + 1) * d];
                let centroid = |j: usize| &prev[j * d..(j + 1) * d];
                let distances = Distances {
                    between: |i: usize, j: usize| key(l2(row(i), centroid(j))),
                    partial: |i: usize, j: usize| {
                        key(l2(&row(i)[..width], &centroid(j)[..width]))
                    },
                    known: |i: usize, c: u32| key(l2(row(i), centroid(c as usize))),
                    extend: |acc: u32, a: &[f32], b: &[f32]| key(value(acc) + l2(a, b)),
                    threshold: |best: u32, visited: u32| {
                        let v = (visited as f64).max(1.0);
                        let room = 1.0 + 1.5 / v.sqrt();
                        let ratio = if visited as usize >= d {
                            1.0
                        } else {
                            v / d as f64 * room * room
                        };
                        key(value(best) * ratio as f32)
                    },
                };
                let counts = km.run_iteration(
                    &distances,
                    &samples,
                    n_samples,
                    iter_idx,
                    gemm_only,
                    0.0,
                    &|a: f32, b: f32| a + b,
                    &|x: f32, m: u32| x * (1.0 / m as f32),
                    &|_: &[usize]| PartialChange::Keep,
                );
                if !gemm_only {
                    let total: usize = counts.iter().sum();
                    passed.push(total as f32 / (n_samples * k) as f32);
                }
                split_empty(km, n_samples);
                km.publish_centroids();
                objectives.push(km.distances[..n_samples].iter().map(|&x| value(x)).sum());
                km.record_iteration(iter_idx, gemm_only, partial_d);
                let shift = l2(&km.horizontal_centroids, &km.prev_centroids);
                let tol = f32::from_bits(km.config.tol);
                let stalled = iter_idx > 0
                    && objectives[iter_idx] / objectives[iter_idx - 1] > 1.0 - tol;
                course.iterated(shift < tol, stalled, false);
            }
        }
    }
    km.trained = true;
    (objectives, passed)
}

#[test]
fn small_blobs_wcss_decreases_with_gemm_only() {
    let (data, n) = make_blobs(40, 4, 16, 42);
    let cfg = SuperKMeansConfig {
        iters: 20,
        sampling_fraction: 1.0f32.to_bits(),
        seed: 7,
        verbose: false,
        tol: 0.0f32.to_bits(),
        early_termination: false,
        ..SuperKMeansConfig::default()
    };
    let mut km: SuperKMeans<f32> = SuperKMeans::new(4, 16, cfg);
    let (objectives, _) = train(&mut km, &data, n);
    assert_eq!(km.horizontal_centroids.len(), 4 * 16);
    for s in km.iteration_stats.iter() {
        assert!(s.is_gemm_only, "expected GEMM-only at d=16");
    }
    assert_eq!(objectives.len(), km.iteration_stats.len());
    for w in objectives.windows(2) {
        assert!(w[1] <= w[0] + 1e-3, "non-monotone: {} -> {}", w[0], w[1]);
    }
}

#[test]
fn small_blobs_converge_well_with_lucky_seed() {
    let (data, n) = make_blobs(40, 4, 16, 42);
    let mut got_low = false;
    for seed in 0..16u64 {
        let cfg = SuperKMeansConfig {
            iters: 20,
            sampling_fraction: 1.0f32.to_bits(),
            seed,
            verbose: false,
            ..SuperKMeansConfig::default()
        };
        let mut km: SuperKMeans<f32> = SuperKMeans::new(4, 16, cfg);
        let (objectives, _) = train(&mut km, &data, n);
        if *objectives.last().unwrap() < 500.0 {
            got_low = true;
            break;
        }
    }
    assert!(got_low, "no seed in 0..16 produced WCSS < 500");
}

#[test]
fn high_dim_runs_pruning_path() {
    let (data, n) = make_blobs(4, 300, 192, 99);
    let cfg = SuperKMeansConfig {
        iters: 3,
        sampling_fraction: 1.0f32.to_bits(),
        seed: 11,
        verbose: false,
        ..SuperKMeansConfig::default()
    };
    let mut km: SuperKMeans<f32> = SuperKMeans::new(300, 192, cfg);
    let (_, passed) = train(&mut km, &data, n);
    assert_eq!(km.horizontal_centroids.len(), 300 * 192);
    assert!(
        km.iteration_stats.iter().any(|s| !s.is_gemm_only),
        "expected at least one pruning iteration"
    );
    for s in km.iteration_stats.iter().filter(|s| !s.is_gemm_only) {
        assert!(s.partial_d > 0);
    }
    for share in passed {
        assert!((0.0..=1.0).contains(&share));
    }
}

#[test]
fn pruned_assignments_match_brute_force() {
    let (data, n) = make_blobs(4, 300, 192, 7);
    let cfg = SuperKMeansConfig {
        iters: 3,
        sampling_fraction: 1.0f32.to_bits(),
        seed: 11,
        verbose: false,
        unrotate_centroids: false,
        ..SuperKMeansConfig::default()
    };
    let mut km: SuperKMeans<f32> = SuperKMeans::new(300, 192, cfg);
    train(&mut km, &data, n);
    let centroids = km.horizontal_centroids.clone();
    let brute = km.assign(
        &|i: usize, j: usize| {
            key(l2(&data[i * 192..(i + 1) * 192], &centroids[j * 192..(j + 1) * 192]))
        },
        n,
        300,
    );
    let trained = km.assignments[..n].to_vec();
    let agreed = brute.iter().zip(trained.iter()).filter(|(a, b)| a == b).count();
    let agree_pct = agreed as f32 / n as f32;
    assert!(
        agree_pct > 0.99,
        "pruned vs brute force disagreement: {agreed} / {n} = {agree_pct:.4}"
    );
}
