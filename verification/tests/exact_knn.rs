use std::sync::Arc;

use arrow_array::cast::AsArray;
use arrow_array::types::Float16Type;
use arrow_array::{FixedSizeListArray, Float16Array};
use arrow_schema::{DataType, Field};
use exact_hnsw::distance::DistanceType;
use exact_hnsw::error::Error;
use exact_hnsw::exact_knn::{exact_knn_topk, exact_knn_topk_blocked};
use exact_hnsw::knn::ExactKnn;
use exact_hnsw::lanes::{
    beats_lane_thresholds, beats_lane_thresholds_baseline, beats_threshold,
    beats_threshold_baseline, lanes_above, low_lanes,
};
use exact_hnsw::single::Single;
use half::f16;
use rayon::iter::{IntoParallelIterator, ParallelIterator};

/// One column block, widened to single precision.
struct Packed {
    columns: Vec<f32>,
    len: usize,
    dim: usize,
}

fn pack(vectors: &[u16], len: usize, dim: usize) -> Option<(Packed, usize)> {
    let columns = vectors.iter().map(|&bits| f16::from_bits(bits).to_f32()).collect();
    Some((Packed { columns, len, dim }, len.div_ceil(32) * 32))
}

fn score(packed: &Packed, data: &[u16], rows: usize, dim: usize, stride: usize) -> Vec<Single> {
    assert_eq!(rows % 32, 0);
    assert_eq!(packed.dim, dim);
    let mut out = vec![Single { bits: 0 }; rows * stride];
    let wide: Vec<f32> = data[..rows * dim].iter().map(|&b| f16::from_bits(b).to_f32()).collect();
    for row in 0..rows {
        let x = &wide[row * dim..(row + 1) * dim];
        for column in 0..packed.len {
            let y = &packed.columns[column * dim..(column + 1) * dim];
            out[row * stride + column] = Single { bits: dot(x, y).to_bits() };
        }
    }
    out
}

fn dot(x: &[f32], y: &[f32]) -> f32 {
    let mut sum = 0.0f32;
    for (a, b) in x.iter().zip(y) {
        sum += a * b;
    }
    sum
}

fn no_kernel(_: &[u16], _: usize, _: usize) -> Option<(Packed, usize)> {
    None
}

fn topk(
    vectors: &[u16],
    n: usize,
    dim: usize,
    k: usize,
    distance_type: DistanceType,
) -> Result<ExactKnn, Error> {
    exact_knn_topk(vectors, n, dim, k, distance_type, &pack, &score)
}

fn topk_blocked(vectors: &[u16], n: usize, dim: usize, k: usize, symmetric: bool) -> ExactKnn {
    exact_knn_topk_blocked(vectors, n, dim, k, DistanceType::Dot, symmetric, &pack, &score).unwrap()
}

/// `n` deterministic pseudo-random unit vectors, row-major.
fn random_vectors(n: usize, dim: usize, seed: u64) -> Vec<u16> {
    let mut state = seed.wrapping_mul(0x9E37_79B9_7F4A_7C15).wrapping_add(1);
    let mut next = move || {
        state ^= state << 13;
        state ^= state >> 7;
        state ^= state << 17;
        (state >> 40) as f32 / 16_777_216.0 - 0.5
    };
    let mut out = Vec::with_capacity(n * dim);
    for _ in 0..n {
        let mut v: Vec<f32> = (0..dim).map(|_| next()).collect();
        let norm = v.iter().map(|x| x * x).sum::<f32>().sqrt().max(1e-6);
        v.iter_mut().for_each(|x| *x /= norm);
        out.extend(v.into_iter().map(|x| f16::from_f32(x).to_bits()));
    }
    out
}

fn widened(vectors: &[u16]) -> Vec<f32> {
    vectors.iter().map(|&bits| f16::from_bits(bits).to_f32()).collect()
}

/// Dot distance of two of the partition's vectors, straight from the definition.
fn pair_distance(vectors: &[f32], dim: usize, i: usize, j: usize) -> f32 {
    1.0 - dot(&vectors[i * dim..(i + 1) * dim], &vectors[j * dim..(j + 1) * dim])
}

/// Ground truth by the definition: every pair scored, self excluded, sorted
/// nearest-first with ids breaking ties.
fn brute_force(vectors: &[f32], n: usize, dim: usize, k: usize) -> (Vec<u32>, Vec<f32>) {
    let rows: Vec<Vec<(f32, u32)>> = (0..n)
        .into_par_iter()
        .map(|i| {
            let mut scored: Vec<(f32, u32)> = (0..n)
                .filter(|&j| j != i)
                .map(|j| (pair_distance(vectors, dim, i, j), j as u32))
                .collect();
            scored.sort_unstable_by(|a, b| a.0.total_cmp(&b.0).then(a.1.cmp(&b.1)));
            scored.truncate(k);
            scored
        })
        .collect();
    let ids = rows.iter().flat_map(|row| row.iter().map(|s| s.1)).collect();
    let distances = rows.iter().flat_map(|row| row.iter().map(|s| s.0)).collect();
    (ids, distances)
}

/// Holds a result against a plain pairwise loop.
fn assert_is_exact_knn(knn: &ExactKnn, vectors: &[u16], n: usize, dim: usize, k: usize) {
    const TOLERANCE: f32 = 1e-5;
    assert_eq!(knn.num_nodes, n);
    assert_eq!(knn.k, k);
    let vectors = widened(vectors);
    let (want_ids, want_distances) = brute_force(&vectors, n, dim, k);
    let mut exact_ids = 0usize;
    for node in 0..n {
        let (ids, distances) = knn.neighbours(node);
        let want_id = &want_ids[node * k..(node + 1) * k];
        let want_distance = &want_distances[node * k..(node + 1) * k];
        let mut seen = ids.to_vec();
        seen.sort_unstable();
        seen.dedup();
        assert_eq!(seen.len(), k, "node {node} repeats a neighbour: {ids:?}");
        for rank in 0..k {
            let distance = f32::from_bits(distances[rank].bits);
            let truth = pair_distance(&vectors, dim, node, ids[rank] as usize);
            assert!(
                (distance - truth).abs() <= TOLERANCE,
                "node {node} rank {rank}: reported {distance} for neighbour {}, which is at {truth}",
                ids[rank]
            );
            assert!(
                (truth - want_distance[rank]).abs() <= TOLERANCE,
                "node {node} rank {rank}: neighbour {} is at {truth}, but the true rank-{rank} \
                 neighbour {} is at {}",
                ids[rank],
                want_id[rank],
                want_distance[rank]
            );
            exact_ids += usize::from(ids[rank] == want_id[rank]);
        }
    }
    assert!(
        exact_ids * 1000 >= n * k * 999,
        "only {exact_ids} of {} neighbour slots matched the reference id exactly",
        n * k
    );
}

/// The headline check, at the shape the partitions actually have.
#[test]
fn test_matches_brute_force() {
    let (n, dim, k) = (1000, 768, 32);
    let vectors = random_vectors(n, dim, 7);
    let knn = topk(&vectors, n, dim, k, DistanceType::Dot).unwrap();
    assert_is_exact_knn(&knn, &vectors, n, dim, k);
}

#[test]
fn test_matches_brute_force_with_unaligned_dim() {
    for (n, dim, k) in [(300usize, 100usize, 8usize), (300, 20, 8)] {
        let vectors = random_vectors(n, dim, 11);
        let knn = topk(&vectors, n, dim, k, DistanceType::Dot).unwrap();
        assert_is_exact_knn(&knn, &vectors, n, dim, k);
    }
}

/// More than one row block, and a partial one at the end.
#[test]
fn test_matches_brute_force_across_row_blocks() {
    let (n, dim, k) = (2600, 64, 12);
    let vectors = random_vectors(n, dim, 13);
    let knn = topk(&vectors, n, dim, k, DistanceType::Dot).unwrap();
    assert_is_exact_knn(&knn, &vectors, n, dim, k);
}

/// A padding slot scores 0.0, which beats every genuinely negative dot product, so
/// it must never reach a neighbour list.
#[test]
fn test_no_padding_ids_when_n_is_unaligned() {
    let (n, dim, k) = (1001, 64, 16);
    let vectors = random_vectors(n, dim, 3);
    let knn = topk(&vectors, n, dim, k, DistanceType::Dot).unwrap();
    assert_eq!(knn.ids.len(), n * k);
    for (slot, &id) in knn.ids.iter().enumerate() {
        assert!(
            (id as usize) < n,
            "slot {slot} points at node {id}, outside the partition's {n} nodes"
        );
    }
}

/// A node's own score is its largest under the dot product, so a missing
/// self-exclusion would make every node its own nearest neighbour.
#[test]
fn test_never_returns_self() {
    let (n, dim, k) = (600, 64, 12);
    let vectors = random_vectors(n, dim, 5);
    let knn = topk(&vectors, n, dim, k, DistanceType::Dot).unwrap();
    for node in 0..n {
        let (ids, _) = knn.neighbours(node);
        assert!(!ids.contains(&(node as u32)), "node {node} lists itself: {ids:?}");
    }
}

/// The symmetric walk, held against the one that computes everything and only ever
/// updates rows.
#[test]
fn test_symmetric_walk_matches_full_walk() {
    for &(n, dim, k) in &[(2500usize, 64usize, 10usize), (517, 96, 5), (33, 32, 7)] {
        let vectors = random_vectors(n, dim, 17);
        let symmetric = topk_blocked(&vectors, n, dim, k, true);
        let full = topk_blocked(&vectors, n, dim, k, false);
        assert_eq!(symmetric.ids, full.ids, "ids differ at n = {n}");
        assert_eq!(symmetric.distances, full.distances, "distances differ at n = {n}");
    }
}

/// Pins the returned distance to the dot distance of the vectors as an array holds
/// them.
#[test]
fn test_distance_matches_flat_storage() {
    let (n, dim, k) = (200, 64, 4);
    let vectors = random_vectors(n, dim, 23);
    let knn = topk(&vectors, n, dim, k, DistanceType::Dot).unwrap();

    let values = Float16Array::from_iter_values(vectors.iter().map(|&b| f16::from_bits(b)));
    let field = Arc::new(Field::new("item", DataType::Float16, true));
    let list = FixedSizeListArray::try_new(field, dim as i32, Arc::new(values), None).unwrap();
    let row = |id: usize| -> Vec<f32> {
        let row = list.value(id);
        row.as_primitive::<Float16Type>().values().iter().map(|v| v.to_f32()).collect()
    };

    for node in 0..n {
        let own = row(node);
        let (ids, distances) = knn.neighbours(node);
        let mut previous = f32::NEG_INFINITY;
        for (&id, &distance) in ids.iter().zip(distances) {
            let distance = f32::from_bits(distance.bits);
            let want = 1.0 - dot(&own, &row(id as usize));
            assert!(
                (distance - want).abs() <= 1e-3,
                "node {node} -> {id}: got {distance}, storage says {want}"
            );
            // Nearest-first means ascending under this convention.
            assert!(distance >= previous, "node {node} is not sorted nearest-first");
            previous = distance;
        }
    }
}

/// A partition with fewer than `k + 1` vectors cannot fill `k` neighbours, so the
/// lists shrink to what exists instead of failing or padding.
#[test]
fn test_k_larger_than_partition() {
    let (n, dim) = (5, 64);
    let vectors = random_vectors(n, dim, 29);
    let knn = topk(&vectors, n, dim, 150, DistanceType::Dot).unwrap();
    assert_eq!(knn.k, n - 1);
    assert_eq!(knn.ids.len(), n * (n - 1));
    for node in 0..n {
        let (ids, _) = knn.neighbours(node);
        let mut seen: Vec<u32> = ids.to_vec();
        seen.sort_unstable();
        let want: Vec<u32> = (0..n as u32).filter(|&j| j != node as u32).collect();
        assert_eq!(seen, want, "node {node} must see every other node exactly once");
    }
}

#[test]
fn test_degenerate_partitions() {
    for n in [0usize, 1] {
        let vectors = random_vectors(n, 64, 31);
        let knn = topk(&vectors, n, 64, 10, DistanceType::Dot).unwrap();
        assert_eq!(knn.num_nodes, n);
        assert_eq!(knn.k, 0);
        assert!(knn.ids.is_empty());
        assert!(knn.distances.is_empty());
    }
}

/// `k = 0` is degenerate rather than invalid, and must not reach the kernel.
#[test]
fn test_zero_k() {
    let vectors = random_vectors(64, 32, 37);
    let knn =
        exact_knn_topk(&vectors, 64, 32, 0, DistanceType::Dot, &no_kernel, &score).unwrap();
    assert_eq!(knn.k, 0);
    assert!(knn.ids.is_empty());
}

/// Without the kernel there is no partial mode: the caller has to be told to keep
/// inserting incrementally.
#[test]
fn test_reports_unavailable_kernel() {
    let (n, dim) = (64, 64);
    let vectors = random_vectors(n, dim, 47);
    let result = topk(&vectors, n, dim, 8, DistanceType::Dot);
    assert!(result.is_ok(), "the kernel is available but got {result:?}");

    let result = exact_knn_topk(&vectors, n, dim, 8, DistanceType::Dot, &no_kernel, &score);
    let error = result.unwrap_err();
    assert!(
        matches!(error, Error::NotSupported { .. }),
        "expected NotSupported without the AMX-FP16 kernel, got {error:?}"
    );
    assert!(
        error.message().contains("AMX-FP16 GEMM is unavailable"),
        "unexpected message: {error:?}"
    );
    assert_eq!(
        error.message(),
        "exact_knn_topk: the AMX-FP16 GEMM is unavailable for n = 64, dim = 64 \
         (no kernel in this build, host without AMX-FP16, or LANCE_DISABLE_AMX set)"
    );
}

#[test]
fn test_rejects_other_distance_types() {
    let vectors = random_vectors(64, 32, 41);
    for distance_type in [DistanceType::L2, DistanceType::Cosine] {
        let error = topk(&vectors, 64, 32, 4, distance_type).unwrap_err();
        assert!(
            matches!(error, Error::NotSupported { .. }),
            "expected NotSupported for {distance_type:?}, got {error:?}"
        );
        assert!(
            error.message().contains("only DistanceType::Dot"),
            "unexpected message: {error:?}"
        );
    }
    let error = topk(&vectors, 64, 32, 4, DistanceType::Hamming).unwrap_err();
    assert_eq!(
        error.message(),
        "exact_knn_topk: only DistanceType::Dot is implemented, got hamming"
    );
}

#[test]
fn test_rejects_mismatched_length() {
    let vectors = random_vectors(64, 32, 43);
    let error = topk(&vectors, 65, 32, 4, DistanceType::Dot).unwrap_err();
    assert!(
        matches!(error, Error::InvalidInput { .. }),
        "expected InvalidInput, got {error:?}"
    );
    assert!(
        error.message().contains("2048 values"),
        "message should name the actual length: {error:?}"
    );
    assert_eq!(
        error.message(),
        "exact_knn_topk: vectors holds 2048 values, expected n (65) * dim (32) = 2080"
    );
}

#[test]
fn rejects_shapes_that_cannot_be_counted() {
    let error = topk(&[], usize::MAX, 2, 4, DistanceType::Dot).unwrap_err();
    assert!(matches!(error, Error::InvalidInput { .. }));
    assert_eq!(
        error.message(),
        format!("exact_knn_topk: n ({}) * dim (2) overflows usize", usize::MAX)
    );
    let n = u32::MAX as usize + 1;
    let error = topk(&[], n, 0, 4, DistanceType::Dot).unwrap_err();
    assert!(matches!(error, Error::InvalidInput { .. }));
    assert_eq!(
        error.message(),
        format!("exact_knn_topk: n ({n}) exceeds u32::MAX, so neighbour ids would not fit")
    );
}

/// A node whose scores are all NaN has no neighbours to list.
#[test]
fn rejects_vectors_that_are_not_finite() {
    let (n, dim) = (8, 32);
    let mut vectors = random_vectors(n, dim, 51);
    vectors[3 * dim] = f16::NAN.to_bits();
    let error = topk(&vectors, n, dim, 7, DistanceType::Dot).unwrap_err();
    assert!(matches!(error, Error::InvalidInput { .. }));
    assert_eq!(
        error.message(),
        "exact_knn_topk: node 0 found only 6 of 7 neighbours; the partition's vectors must all \
         be finite"
    );
}

/// Scores as they stand: the two nearest by dot product, at one less the score.
#[test]
fn lists_the_nearest_by_dot_product() {
    let one = f16::from_f32(1.0).to_bits();
    let half = f16::from_f32(0.5).to_bits();
    let two = f16::from_f32(2.0).to_bits();
    let vectors = vec![one, 0, half, half, 0, one, two, 0];
    for symmetric in [true, false] {
        let knn = topk_blocked(&vectors, 4, 2, 2, symmetric);
        let (ids, distances) = knn.neighbours(0);
        assert_eq!(ids, &[3, 1]);
        let distances: Vec<f32> = distances.iter().map(|d| f32::from_bits(d.bits)).collect();
        assert_eq!(distances, vec![-1.0, 0.5]);
        // Nodes 0 and 3 tie for node 2; the smaller id stands first.
        let knn = topk_blocked(&vectors, 4, 2, 3, symmetric);
        assert_eq!(knn.neighbours(2).0, &[1, 0, 3]);
    }
}

/// Of equally near nodes those stay that the walk brings first.
#[test]
fn equally_near_nodes_stay_in_the_order_they_arrive_in() {
    let one = f16::from_f32(1.0).to_bits();
    let symmetric = topk_blocked(&[one; 3], 3, 1, 1, true);
    assert_eq!(symmetric.ids, vec![1, 2, 0]);
    let full = topk_blocked(&[one; 3], 3, 1, 1, false);
    assert_eq!(full.ids, vec![1, 0, 0]);
    assert_eq!(symmetric.distances, full.distances);

    // Node 1 lets go of a weaker neighbour for a nearer one, and of none for
    // another as near.
    let vectors: Vec<u16> =
        [2.0f32, 1.0, 0.5, 2.0, 2.0].iter().map(|&x| f16::from_f32(x).to_bits()).collect();
    let symmetric = topk_blocked(&vectors, 5, 1, 2, true);
    assert_eq!(symmetric.neighbours(1).0, [3, 4]);
    let full = topk_blocked(&vectors, 5, 1, 2, false);
    assert_eq!(full.neighbours(1).0, [0, 3]);
}

#[test]
fn equally_near_nodes_arrive_by_blocks() {
    let (n, k) = (1100usize, 3usize);
    let one = f16::from_f32(1.0).to_bits();
    let symmetric = topk_blocked(&vec![one; n], n, 1, k, true);
    let full = topk_blocked(&vec![one; n], n, 1, k, false);
    for x in 0..n {
        let (start, end) = (x / 1024 * 1024, (x / 256 * 256 + 256).min(n));
        let order: Vec<usize> =
            (0..start).chain(x + 1..end).chain(start..x).chain(end..n).collect();
        let mut first: Vec<u32> = order[..k].iter().map(|&id| id as u32).collect();
        first.sort_unstable();
        assert_eq!(symmetric.neighbours(x).0, first, "node {x}");
        let ascending: Vec<u32> = (0..n as u32).filter(|&id| id != x as u32).take(k).collect();
        assert_eq!(full.neighbours(x).0, ascending, "node {x}");
    }
}

/// Where one walk fails, so does the other, and says the same.
#[test]
fn walks_fail_alike() {
    let mut vectors = random_vectors(40, 8, 5);
    for node in [7, 12] {
        vectors[node * 8] = f16::NAN.to_bits();
    }
    let failed = |vectors: &[u16], n: usize, k: usize, distance_type, symmetric| {
        let r = exact_knn_topk_blocked(vectors, n, 8, k, distance_type, symmetric, &pack, &score);
        r.unwrap_err()
    };
    for (n, k, distance_type, part) in [
        (40, 39, DistanceType::Dot, "node 0 found only 37 of 39"),
        (40, 10, DistanceType::Dot, "node 7 found only 0 of 10"),
        (39, 10, DistanceType::Dot, "320 values"),
        (40, 10, DistanceType::L2, "only DistanceType::Dot"),
    ] {
        let one = failed(&vectors, n, k, distance_type, true);
        let other = failed(&vectors, n, k, distance_type, false);
        assert_eq!(one.message(), other.message());
        assert!(one.message().contains(part), "{}", one.message());
    }
    for symmetric in [true, false] {
        let dot = DistanceType::Dot;
        let r = exact_knn_topk_blocked(&vectors, 40, 8, 3, dot, symmetric, &no_kernel, &score);
        assert!(matches!(r, Err(Error::NotSupported { .. })));
    }
}

#[test]
fn one_walk_makes_one_table() {
    let (n, dim, k) = (70, 4, 9);
    let mut vectors = random_vectors(n, dim, 21);
    for i in 0..n / 2 {
        for value in 0..dim {
            vectors[(2 * i + 1) * dim + value] = vectors[2 * i * dim + value];
        }
    }
    let symmetric = topk_blocked(&vectors, n, dim, k, true);
    assert_eq!(symmetric, topk_blocked(&vectors, n, dim, k, true));
    let full = topk_blocked(&vectors, n, dim, k, false);
    assert_eq!(full, topk_blocked(&vectors, n, dim, k, false));
    assert_eq!(symmetric.distances, full.distances);
}

/// The mask scan and its portable form must agree bit for bit.
#[test]
fn test_mask_kernels_agree() {
    let single = |x: f32| Single { bits: x.to_bits() };
    let dots: Vec<Single> = (0..37).map(|i| single((i as f32) * 0.25 - 4.0)).collect();
    for threshold in [f32::NEG_INFINITY, -4.0, 0.0, 3.0, 100.0] {
        let words = dots.len().div_ceil(16);
        let mut dispatched = vec![0u16; words];
        let mut baseline = vec![0u16; words];
        beats_threshold(&dots, single(threshold), &mut dispatched);
        beats_threshold_baseline(&dots, single(threshold), &mut baseline);
        assert_eq!(dispatched, baseline, "threshold {threshold}");
        for (i, dot) in dots.iter().enumerate() {
            let set = dispatched[i / 16] >> (i % 16) & 1 == 1;
            assert_eq!(set, f32::from_bits(dot.bits) > threshold);
        }
        // Bits past the end of `dots` must stay clear, or the scan would read
        // neighbours out of the block's padding.
        assert_eq!(
            dispatched[words - 1] & !low_lanes(dots.len() % 16),
            0,
            "tail bits set for threshold {threshold}"
        );
    }

    let (stride, rows, strip, width) = (48usize, 5usize, 32usize, 11usize);
    let block: Vec<Single> = (0..rows * stride).map(|i| single((i % 17) as f32 - 8.0)).collect();
    let thresholds: Vec<Single> = (0..width).map(|l| single(l as f32 - 5.0)).collect();
    let mut dispatched = vec![0u16; rows];
    let mut baseline = vec![0u16; rows];
    beats_lane_thresholds(&block, stride, strip, &thresholds, &mut dispatched);
    beats_lane_thresholds_baseline(&block, stride, strip, &thresholds, &mut baseline);
    assert_eq!(dispatched, baseline);
    for (row, &bits) in dispatched.iter().enumerate() {
        assert_eq!(bits & !low_lanes(width), 0, "row {row} set a padding lane");
        for lane in 0..width {
            let dot = f32::from_bits(block[row * stride + strip + lane].bits);
            assert_eq!(bits >> lane & 1 == 1, dot > lane as f32 - 5.0);
        }
    }
}

#[test]
fn test_lanes_above() {
    // Column strip [10, 16): row 12 may only see columns 13..16.
    assert_eq!(lanes_above(12, 10, 6), 0b111000);
    // Every column is above the row.
    assert_eq!(lanes_above(3, 10, 6), 0b111111);
    // No column is.
    assert_eq!(lanes_above(20, 10, 6), 0);
    // The diagonal itself is excluded, not included.
    assert_eq!(lanes_above(10, 10, 6), 0b111110);
}

#[test]
fn low_lanes_fill_from_below() {
    assert_eq!(low_lanes(0), 0);
    assert_eq!(low_lanes(5), 0b11111);
    assert_eq!(low_lanes(16), u16::MAX);
    assert_eq!(low_lanes(40), u16::MAX);
}
