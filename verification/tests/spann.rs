use rand::rngs::StdRng;
use rand::{Rng, SeedableRng};
use vector_experiments::kmeans::balance::{
    balance_from_sizes, cluster_sizes, format_bytes, min_median_max,
};
use vector_experiments::kmeans::duplication::{
    copy_to_near_clusters, duplicate_assignments, duplicated_cluster_sizes,
};
use vector_experiments::kmeans::spann::{hierarchical_balanced_kmeans, Geometry, TinyRng};
use vector_experiments::kmeans::superkmeans::common::{bits_of_key, ordered_key};

fn l2(a: &[f32], b: &[f32]) -> f32 {
    a.iter().zip(b).map(|(x, y)| (x - y) * (x - y)).sum()
}

fn key(x: f32) -> u64 {
    ordered_key(x.to_bits()) as u64
}

/// Clusters the rows of a matrix.
fn bisect(
    data: &[f32],
    n: usize,
    dims: usize,
    k: usize,
    iters: usize,
    seed: u64,
) -> (Vec<Vec<f32>>, Vec<u32>) {
    let row = |i: u32| &data[i as usize * dims..(i as usize + 1) * dims];
    let geo = Geometry {
        point: |i: u32| row(i).to_vec(),
        mean: |list: &[u32]| {
            let mut mean = vec![0.0f32; dims];
            for &i in list {
                for (m, x) in mean.iter_mut().zip(row(i)) {
                    *m += x;
                }
            }
            if !list.is_empty() {
                for m in &mut mean {
                    *m /= list.len() as f32;
                }
            }
            mean
        },
        spread: |a: u32, b: u32| key(l2(row(a), row(b))),
        key: |i: u32, a: &Vec<f32>, b: &Vec<f32>| key(l2(row(i), a) - l2(row(i), b)),
    };
    hierarchical_balanced_kmeans(&geo, n, k, iters, seed)
}

#[test]
fn hierarchical_produces_balanced_clusters() {
    // Synthetic: 1000 points, 8 clusters of 125 each — exact division.
    let n = 1000usize;
    let dims = 16usize;
    let mut rng = StdRng::seed_from_u64(0);
    let mut data = Vec::with_capacity(n * dims);
    for _ in 0..n {
        for _ in 0..dims {
            data.push(rng.gen_range(-1.0..1.0_f32));
        }
    }
    let (centroids, assignments) = bisect(&data, n, dims, 8, 5, 42);
    assert_eq!(centroids.iter().map(|c| c.len()).sum::<usize>(), 8 * dims);
    let mut sizes = vec![0usize; 8];
    for &a in &assignments {
        sizes[a as usize] += 1;
    }
    // Exact partitioning: each cluster has exactly 125 points.
    for s in sizes {
        assert_eq!(s, 125);
    }
}

#[test]
fn duplication_respects_ratio() {
    // 1 point, 4 centroids, two of which are within ratio of nearest.
    let dims = 4usize;
    let data = vec![0.0f32, 0.0, 0.0, 0.0];
    let centroids = vec![
        1.0,
        0.0,
        0.0,
        0.0, // dist² = 1
        f32::sqrt(1.5),
        0.0,
        0.0,
        0.0, // dist² = 1.5
        2.0,
        0.0,
        0.0,
        0.0, // dist² = 4
        1.1,
        0.0,
        0.0,
        0.0, // dist² = 1.21
    ];
    let primary = vec![0u32];
    // ratio_threshold so that ratio² = 1.5 → ratio = sqrt(1.5) ≈ 1.225
    let r = (1.5f32).sqrt();
    let distance = |i: usize, j: usize| {
        ordered_key(l2(&data[i * dims..(i + 1) * dims], &centroids[j * dims..(j + 1) * dims]).to_bits())
    };
    let value = |k: u32| f32::from_bits(bits_of_key(k));
    let within = |own: u32, d: u32| value(d) <= value(own) * (r * r);
    let result = duplicate_assignments(&distance, &primary, 4, 4, r > 1.0, &within);
    let clusters = &result[0];
    assert_eq!(clusters[0], 0, "primary always first");
    // Expect clusters 1 and 3 included, 2 excluded.
    assert!(clusters.contains(&1), "centroid 1 should duplicate");
    assert!(clusters.contains(&3), "centroid 3 should duplicate");
    assert!(!clusters.contains(&2), "centroid 2 too far");
}

#[test]
fn uneven_clusters_differ_by_little() {
    let data: Vec<f32> = (0..11).map(|i| i as f32).collect();
    let (centroids, assignments) = bisect(&data, 11, 1, 3, 4, 1);
    assert_eq!(centroids.len(), 3);
    let sizes = cluster_sizes(&assignments, 11, 3);
    assert_eq!(sizes.iter().sum::<u32>(), 11);
    assert!(sizes.iter().all(|&s| s == 3 || s == 4));
}

#[test]
fn as_many_clusters_as_points() {
    let data: Vec<f32> = (0..5).map(|i| (i * i) as f32).collect();
    let (_, assignments) = bisect(&data, 5, 1, 5, 3, 9);
    let mut sorted = assignments.clone();
    sorted.sort();
    assert_eq!(sorted, vec![0, 1, 2, 3, 4]);
}

#[test]
fn no_copies_without_room_or_ratio() {
    let always = |_: u32, _: u32| true;
    let distance = |_: usize, j: usize| 0x8000_0000 + j as u32;
    let primary = [2u32, 0];
    assert_eq!(
        duplicate_assignments(&distance, &primary, 3, 1, true, &always),
        vec![vec![2], vec![0]]
    );
    assert_eq!(
        duplicate_assignments(&distance, &primary, 3, 4, false, &always),
        vec![vec![2], vec![0]]
    );
    assert_eq!(
        duplicate_assignments(&distance, &primary, 3, 4, true, &always),
        vec![vec![2, 0, 1], vec![0, 1, 2]]
    );
}

#[test]
fn copies_stop_at_the_first_cluster_out_of_reach() {
    let within = |own: u32, d: u32| d <= own.saturating_mul(2);
    let result = copy_to_near_clusters(
        &[5u32],
        &[10u32],
        8,
        4,
        true,
        &[5, 1, 2, 3],
        &[10u32, 20, 21, 15],
        &within,
    );
    assert_eq!(result, vec![vec![5, 1]]);
    assert_eq!(duplicated_cluster_sizes(&result, 8), vec![0, 1, 0, 0, 0, 1, 0, 0]);
}

#[test]
fn reach_is_measured_from_the_primary_cluster() {
    let centroids = [1.0f32, 4.0, 5.0];
    let distance = |_: usize, j: usize| ordered_key((centroids[j] * centroids[j]).to_bits());
    let value = |k: u32| f32::from_bits(bits_of_key(k));
    let within = |own: u32, d: u32| value(d) <= value(own) * 4.0;
    assert_eq!(
        duplicate_assignments(&distance, &[1], 3, 3, true, &within),
        vec![vec![1, 0, 2]]
    );
    assert_eq!(duplicate_assignments(&distance, &[0], 3, 3, true, &within), vec![vec![0]]);
}

#[test]
fn tiny_generator_is_a_xorshift() {
    let mut rng = TinyRng::new(0);
    let mut x = 1u64;
    for _ in 0..4 {
        x ^= x << 13;
        x ^= x >> 7;
        x ^= x << 17;
        assert_eq!(rng.next(), x);
    }
}

#[test]
fn sizes_and_their_summary() {
    let sizes = cluster_sizes(&[0, 2, 2, 2], 4, 3);
    assert_eq!(sizes, vec![1, 0, 3]);
    let sums = balance_from_sizes(&sizes);
    assert_eq!((sums.total, sums.squares, sums.nonempty), (4, 10, 2));
    assert_eq!((sums.min, sums.max), (0, 3));
    assert_eq!(min_median_max(&sizes), (0, 2, 3));
    assert_eq!(min_median_max(&[4, 1]), (1, 5, 4));
    assert_eq!(min_median_max(&[]), (0, 0, 0));
}

#[test]
fn byte_counts_in_words() {
    assert_eq!(format_bytes(0), "0 B");
    assert_eq!(format_bytes(1023), "1023 B");
    assert_eq!(format_bytes(1024), "1.0 KB");
    assert_eq!(format_bytes(1536), "1.5 KB");
    assert_eq!(format_bytes(1 << 20), "1.0 MB");
    assert_eq!(format_bytes(3 << 30), "3.00 GB");
    for bytes in [1000u64, 123_456, 99_999_999, 12_345_678_901, u64::MAX] {
        let expected = if bytes >= 1 << 30 {
            format!("{:.2} GB", bytes as f64 / (1u64 << 30) as f64)
        } else if bytes >= 1 << 20 {
            format!("{:.1} MB", bytes as f64 / (1u64 << 20) as f64)
        } else if bytes >= 1 << 10 {
            format!("{:.1} KB", bytes as f64 / 1024.0)
        } else {
            format!("{} B", bytes)
        };
        assert_eq!(format_bytes(bytes), expected);
    }
}
