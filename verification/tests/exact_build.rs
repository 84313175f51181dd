use std::collections::HashSet;

use exact_hnsw::distance::DistanceType;
use exact_hnsw::error::Error;
use exact_hnsw::exact_build::{
    build_from_exact_knn, eligible_vectors, into_builder_node, level_edges, merge_bidirectional,
    Partition,
};
use exact_hnsw::graph::{Hnsw, HnswBuildParams, OrderedNode};
use exact_hnsw::knn::ExactKnn;
use exact_hnsw::single::Single;
use half::f16;

struct Packed {
    columns: Vec<f32>,
    len: usize,
}

fn pack(vectors: &[u16], len: usize, _: usize) -> Option<(Packed, usize)> {
    Some((Packed { columns: widened(vectors), len }, len.div_ceil(32) * 32))
}

fn no_kernel(_: &[u16], _: usize, _: usize) -> Option<(Packed, usize)> {
    None
}

fn score(packed: &Packed, data: &[u16], rows: usize, dim: usize, stride: usize) -> Vec<Single> {
    let mut out = vec![Single { bits: 0 }; rows * stride];
    let wide = widened(&data[..rows * dim]);
    for row in 0..rows {
        for column in 0..packed.len {
            let sum = dot(
                &wide[row * dim..(row + 1) * dim],
                &packed.columns[column * dim..(column + 1) * dim],
            );
            out[row * stride + column] = Single { bits: sum.to_bits() };
        }
    }
    out
}

fn dot(x: &[f32], y: &[f32]) -> f32 {
    let mut sum = 0.0f32;
    for (a, b) in x.iter().zip(y) {
        sum += a * b;
    }
    sum
}

fn widened(vectors: &[u16]) -> Vec<f32> {
    vectors.iter().map(|&bits| f16::from_bits(bits).to_f32()).collect()
}

/// `n` deterministic pseudo-random unit vectors, row-major.
fn random_unit_vectors(n: usize, dim: usize, seed: u64) -> Vec<u16> {
    let mut state = seed.wrapping_mul(0x9E37_79B9_7F4A_7C15).wrapping_add(1);
    let mut next = move || {
        state ^= state << 13;
        state ^= state >> 7;
        state ^= state << 17;
        (state >> 40) as f32 / 16_777_216.0 - 0.5
    };
    let mut out = Vec::with_capacity(n * dim);
    for _ in 0..n {
        let mut v: Vec<f32> = (0..dim).map(|_| next()).collect();
        let norm = v.iter().map(|x| x * x).sum::<f32>().sqrt().max(1e-6);
        v.iter_mut().for_each(|x| *x /= norm);
        out.extend(v.into_iter().map(|x| f16::from_f32(x).to_bits()));
    }
    out
}

fn partition(vectors: &[u16], n: usize, dim: usize) -> Partition<'_> {
    Partition { len: n, distance_type: DistanceType::Dot, vectors: Some((vectors, dim)) }
}

fn default_params() -> HnswBuildParams {
    HnswBuildParams {
        max_level: 7,
        m: 20,
        ef_construction: 150,
        use_exact_knn_construction: false,
        exact_knn_max_partition_size: 1_000_000,
    }
}

fn test_params() -> HnswBuildParams {
    HnswBuildParams {
        max_level: 4,
        m: 8,
        ef_construction: 32,
        use_exact_knn_construction: true,
        ..default_params()
    }
}

/// Every eighth node of a level is on the next one, in no order of ids.
fn assigned_levels(len: usize, params: &HnswBuildParams) -> Vec<usize> {
    (0..len as u64)
        .map(|id| {
            let mut bits = (id + 1).wrapping_mul(0x9E37_79B9_7F4A_7C15) >> 20;
            let mut levels = 1;
            while bits % 8 == 0 && levels < params.max_level as usize {
                bits /= 8;
                levels += 1;
            }
            levels
        })
        .collect()
}

/// The first of the tallest nodes.
fn entry_point_of(levels: &Vec<usize>) -> u32 {
    let tallest = *levels.iter().max().unwrap();
    levels.iter().position(|&node_levels| node_levels == tallest).unwrap() as u32
}

/// Keeps a candidate unless one already kept is nearer to it than the node is.
fn heuristic(wide: &[f32], dim: usize, candidates: Vec<OrderedNode>, m: usize) -> Vec<OrderedNode> {
    if candidates.len() <= m {
        return candidates;
    }
    let mut sorted = candidates;
    sorted.sort_by(|a, b| distance(a).total_cmp(&distance(b)));
    let mut kept: Vec<OrderedNode> = Vec::new();
    for candidate in sorted {
        if kept.len() == m {
            break;
        }
        let at = candidate.id as usize * dim;
        let crowded = kept.iter().any(|near| {
            let to = near.id as usize * dim;
            1.0 - dot(&wide[at..at + dim], &wide[to..to + dim]) < distance(&candidate)
        });
        if !crowded {
            kept.push(candidate);
        }
    }
    kept
}

fn distance(node: &OrderedNode) -> f32 {
    f32::from_bits(node.dist.bits)
}

fn node(id: u32, dist: f32) -> OrderedNode {
    OrderedNode { id, dist: Single { bits: dist.to_bits() } }
}

fn built(vectors: &[u16], n: usize, dim: usize, params: &HnswBuildParams) -> Option<Hnsw> {
    let wide = widened(vectors);
    build_from_exact_knn(
        &partition(vectors, n, dim),
        params,
        true,
        &|len: usize| assigned_levels(len, params),
        &entry_point_of,
        &|candidates: Vec<OrderedNode>, m: usize| heuristic(&wide, dim, candidates, m),
        &pack,
        &score,
    )
    .unwrap()
}

fn answer(
    storage: &Partition<'_>,
    params: &HnswBuildParams,
    kernel_available: bool,
    kernel_declines: bool,
) -> Result<Option<Hnsw>, Error> {
    let assign = |len: usize| assigned_levels(len, params);
    let select = |candidates: Vec<OrderedNode>, m: usize| {
        candidates.into_iter().take(m).collect::<Vec<_>>()
    };
    if kernel_declines {
        build_from_exact_knn(
            storage, params, kernel_available, &assign, &entry_point_of, &select, &no_kernel,
            &score,
        )
    } else {
        build_from_exact_knn(
            storage, params, kernel_available, &assign, &entry_point_of, &select, &pack, &score,
        )
    }
}

#[test]
fn test_declines_what_it_cannot_serve() {
    let params = test_params();
    let dim = 64;
    let vectors = random_unit_vectors(64, dim, 1);
    let storage = partition(&vectors, 64, dim);

    // Off by default.
    assert!(answer(&storage, &default_params(), true, false).unwrap().is_none());

    // Wrong metric.
    let l2 = Partition { distance_type: DistanceType::L2, ..partition(&vectors, 64, dim) };
    assert!(answer(&l2, &params, true, false).unwrap().is_none());

    // Wrong element type.
    let other = Partition { vectors: None, ..partition(&vectors, 64, dim) };
    assert!(answer(&other, &params, true, false).unwrap().is_none());

    // Partition over the configured ceiling.
    let capped = HnswBuildParams { exact_knn_max_partition_size: 16, ..params };
    assert!(answer(&storage, &capped, true, false).unwrap().is_none());

    // No levels, and no vectors.
    let flat = HnswBuildParams { max_level: 0, ..params };
    assert!(answer(&storage, &flat, true, false).unwrap().is_none());
    assert!(answer(&partition(&[], 0, dim), &params, true, false).unwrap().is_none());

    // And it does serve the case all of those differ from, but only where the
    // kernel exists.
    assert!(answer(&storage, &params, true, false).unwrap().is_some());
    assert!(answer(&storage, &params, false, false).unwrap().is_none());
    assert!(answer(&storage, &params, true, true).unwrap().is_none());
}

#[test]
fn eligible_vectors_are_those_of_the_storage() {
    let vectors = random_unit_vectors(4, 32, 1);
    let storage = partition(&vectors, 4, 32);
    let (found, dim) = eligible_vectors(&storage, &test_params(), true).unwrap();
    assert_eq!(found, vectors.as_slice());
    assert_eq!(dim, 32);
    assert!(eligible_vectors(&storage, &test_params(), false).is_none());
    let exact = HnswBuildParams { exact_knn_max_partition_size: 4, ..test_params() };
    assert!(eligible_vectors(&storage, &exact, true).is_some());
    let capped = HnswBuildParams { exact_knn_max_partition_size: 3, ..test_params() };
    assert!(eligible_vectors(&storage, &capped, true).is_none());
}

#[test]
fn reports_real_errors() {
    let vectors = random_unit_vectors(4, 32, 1);
    let error = answer(&partition(&vectors, 5, 32), &test_params(), true, false).unwrap_err();
    assert!(matches!(error, Error::InvalidInput { .. }));
    assert_eq!(
        error.message(),
        "exact_knn_topk: vectors holds 128 values, expected n (5) * dim (32) = 160"
    );
}

/// Of several levels with an error the lowest one's is reported, and a level may have
/// one after those below it had none.
#[test]
fn reports_the_error_of_the_lowest_level() {
    let dim = 32;
    let vectors = random_unit_vectors(8, dim, 5);
    let error_of = |strays_everywhere: bool| {
        let select = |candidates: Vec<OrderedNode>, m: usize| {
            let mut kept: Vec<OrderedNode> = candidates.into_iter().take(m).collect();
            if kept.len() == 1 {
                kept[0] = node(0, distance(&kept[0]));
            } else if strays_everywhere {
                kept[0] = node(400, distance(&kept[0]));
            }
            kept
        };
        build_from_exact_knn(
            &partition(&vectors, 8, dim),
            &test_params(),
            true,
            &|_: usize| vec![1, 1, 2, 1, 1, 2, 1, 1],
            &entry_point_of,
            &select,
            &pack,
            &score,
        )
        .unwrap_err()
    };
    for (strays_everywhere, stray, of) in [(false, 0, 2), (true, 400, 0)] {
        let error = error_of(strays_everywhere);
        assert!(matches!(error, Error::Internal { .. }));
        assert_eq!(error.message(), error_of(strays_everywhere).message());
        assert_eq!(
            error.message(),
            format!(
                "HNSW exact-knn construction picked node {stray} as a neighbour of node {of}, \
                 but it is not on this level"
            )
        );
    }
}

/// Everything the search path assumes about a graph's shape.
#[test]
fn test_graph_structure_invariants() {
    // Past 1024 rows and 256 columns the neighbour table walks several blocks of
    // the distance matrix, including a short trailing one.
    let (n, dim) = (2500, 64);
    let params = test_params();
    let vectors = random_unit_vectors(n, dim, 3);
    let hnsw = built(&vectors, n, dim, &params).unwrap();
    let nodes = &hnsw.nodes;

    assert_eq!(nodes.len(), n);
    assert_eq!(hnsw.params, params);
    let levels = assigned_levels(n, &params);
    for (id, node) in nodes.iter().enumerate() {
        assert_eq!(
            node.level_neighbors.len(),
            levels[id],
            "node {id} is on the wrong number of levels"
        );
        assert_eq!(
            node.bottom_neighbors.as_ref(),
            node.level_neighbors[0].as_ref(),
            "node {id}'s bottom neighbours drifted from level 0"
        );
    }

    for level in 0..params.max_level as usize {
        let m_max = if level == 0 { 2 * params.m } else { params.m };
        let on_level: HashSet<u32> =
            (0..n as u32).filter(|&id| levels[id as usize] > level).collect();
        assert_eq!(
            hnsw.level_count[level],
            on_level.len(),
            "level {level}'s node count disagrees with the level assignment"
        );

        for &id in &on_level {
            let neighbors = nodes[id as usize].level_neighbors[level].as_ref();
            assert!(
                neighbors.len() <= m_max,
                "node {id} has {} neighbours on level {level}, over the cap of {m_max}",
                neighbors.len()
            );
            assert!(!neighbors.contains(&id), "node {id} has a self loop on level {level}");
            let unique: HashSet<u32> = neighbors.iter().copied().collect();
            assert_eq!(
                unique.len(),
                neighbors.len(),
                "node {id} has a duplicate neighbour on level {level}"
            );
            for neighbor in neighbors {
                assert!(
                    on_level.contains(neighbor),
                    "node {id}'s level-{level} neighbour {neighbor} is not on that level"
                );
            }
            assert_eq!(
                nodes[id as usize].level_neighbors_ranked[level].len(),
                neighbors.len(),
                "node {id}'s level-{level} ranked list disagrees with its neighbour list"
            );
        }
    }

    // The selection always takes the closest candidate, and on level 0 the
    // candidates are exact, so every node's first neighbour has to be its true
    // nearest neighbour.
    let wide = widened(&vectors);
    for id in 0..n {
        let own = &wide[id * dim..(id + 1) * dim];
        let nearest = (0..n)
            .filter(|&other| other != id)
            .map(|other| 1.0 - dot(own, &wide[other * dim..(other + 1) * dim]))
            .fold(f32::INFINITY, f32::min);
        let chosen = distance(&nodes[id].level_neighbors_ranked[0][0]);
        assert!(
            (chosen - nearest).abs() < 1e-3,
            "node {id}'s closest level-0 edge is at {chosen:?}, but its nearest \
             neighbour is at {nearest:?}"
        );
    }

    // Search only works if the entry point reaches the rest of each level.
    let entry_point = entry_point_of(&levels);
    assert_eq!(hnsw.entry_point, entry_point);
    for level in 0..params.max_level as usize {
        let members: Vec<u32> =
            (0..n as u32).filter(|&id| levels[id as usize] > level).collect();
        if members.is_empty() {
            continue;
        }
        let mut seen = HashSet::from([entry_point]);
        let mut queue = vec![entry_point];
        while let Some(id) = queue.pop() {
            for &neighbor in nodes[id as usize].level_neighbors[level].iter() {
                if seen.insert(neighbor) {
                    queue.push(neighbor);
                }
            }
        }
        assert_eq!(
            seen.len(),
            members.len(),
            "level {level} is not fully reachable from the entry point: {} of {} members",
            seen.len(),
            members.len()
        );
    }
}

/// Nothing in this path draws at build time, so two builds of the same partition
/// must agree edge for edge.
#[test]
fn test_build_is_deterministic() {
    let params = test_params();
    let vectors = random_unit_vectors(400, 64, 5);
    let first = built(&vectors, 400, 64, &params).unwrap();
    let second = built(&vectors, 400, 64, &params).unwrap();

    assert_eq!(first.nodes.len(), second.nodes.len());
    for (id, (a, b)) in first.nodes.iter().zip(second.nodes.iter()).enumerate() {
        assert_eq!(
            a.level_neighbors, b.level_neighbors,
            "node {id} differs between builds"
        );
    }
}

/// A partition with fewer nodes than `m` still has to come out as a usable graph,
/// and one with a single node has no edges to make at all.
#[test]
fn test_tiny_partitions() {
    let params = test_params();
    for n in [1usize, 2, 5] {
        let vectors = random_unit_vectors(n, 64, 17);
        let hnsw = built(&vectors, n, 64, &params).unwrap();
        assert_eq!(hnsw.nodes.len(), n);
        assert_eq!(hnsw.nodes[0].level_neighbors[0].len(), n - 1);
        let bottom: Vec<usize> =
            hnsw.nodes.iter().map(|node| node.bottom_neighbors.len()).collect();
        assert_eq!(bottom, vec![n - 1; n]);
    }
}

/// A level with a single node has nothing to connect.
#[test]
fn leaves_a_lone_node_unconnected() {
    let vectors = random_unit_vectors(3, 32, 19);
    let params = HnswBuildParams { max_level: 3, ..test_params() };
    let hnsw = build_from_exact_knn(
        &partition(&vectors, 3, 32),
        &params,
        true,
        &|_: usize| vec![1usize, 3, 2],
        &entry_point_of,
        &|candidates: Vec<OrderedNode>, m: usize| candidates.into_iter().take(m).collect(),
        &pack,
        &score,
    )
    .unwrap()
    .unwrap();
    assert_eq!(hnsw.level_count, vec![3, 2, 1]);
    assert_eq!(hnsw.entry_point, 1);
    assert_eq!(hnsw.nodes[1].level_neighbors[1].as_ref(), &vec![2]);
    assert_eq!(hnsw.nodes[2].level_neighbors[1].as_ref(), &vec![1]);
    assert!(hnsw.nodes[1].level_neighbors[2].is_empty());
    assert_eq!(hnsw.nodes[0].level_neighbors.len(), 1);
}

/// Both ends get an edge that only one of them chose, an edge chosen from both
/// ends stays single, and the lists come out nearest first.
#[test]
fn merging_adds_back_edges_once() {
    let members = vec![4, 7, 9];
    let adjacency =
        vec![vec![node(9, 0.5), node(7, 0.25)], vec![node(4, 0.25)], vec![node(7, 0.125)]];
    let all = |candidates: Vec<OrderedNode>, _: usize| candidates;
    let rows = merge_bidirectional(10, &members, adjacency, 8, &all).unwrap();
    assert_eq!(
        rows,
        vec![
            vec![node(7, 0.25), node(9, 0.5)],
            vec![node(9, 0.125), node(4, 0.25)],
            vec![node(7, 0.125), node(4, 0.5)],
        ]
    );
}

/// A node past its cap is pruned by the selection, which sees its edges by id.
#[test]
fn merging_prunes_past_the_cap() {
    let members = vec![0, 1, 2, 3];
    let adjacency =
        vec![vec![], vec![node(0, 0.75)], vec![node(0, 0.25)], vec![node(0, 0.5)]];
    let select = |candidates: Vec<OrderedNode>, m: usize| {
        assert_eq!(candidates, vec![node(1, 0.75), node(2, 0.25), node(3, 0.5)]);
        assert_eq!(m, 2);
        candidates.into_iter().take(m).collect::<Vec<_>>()
    };
    let rows = merge_bidirectional(4, &members, adjacency, 2, &select).unwrap();
    assert_eq!(rows[0], vec![node(2, 0.25), node(1, 0.75)]);
    assert_eq!(rows[1], vec![node(0, 0.75)]);
}

#[test]
fn merging_reports_a_neighbour_off_the_level() {
    let members = vec![4, 7];
    let all = |candidates: Vec<OrderedNode>, _: usize| candidates;
    for stray in [5u32, 400] {
        let adjacency = vec![vec![node(7, 0.5)], vec![node(4, 0.5), node(stray, 0.5)]];
        let error = merge_bidirectional(10, &members, adjacency, 8, &all).unwrap_err();
        assert!(matches!(error, Error::Internal { .. }));
        assert_eq!(
            error.message(),
            format!(
                "HNSW exact-knn construction picked node {stray} as a neighbour of node 7, but \
                 it is not on this level"
            )
        );
    }
}

/// The table's ids are positions on the level; the edges hold the nodes' own ids.
#[test]
fn level_edges_map_positions_to_nodes() {
    let members = vec![3, 5, 8];
    let single = |x: f32| Single { bits: x.to_bits() };
    let knn = ExactKnn {
        num_nodes: 3,
        k: 1,
        ids: vec![2, 0, 0],
        distances: vec![single(0.25), single(0.5), single(0.25)],
    };
    let all = |candidates: Vec<OrderedNode>, _: usize| candidates;
    let rows = level_edges(9, &members, &knn, 4, &all).unwrap();
    assert_eq!(rows[0], vec![node(8, 0.25), node(5, 0.5)]);
    assert_eq!(rows[1], vec![node(3, 0.5)]);
    assert_eq!(rows[2], vec![node(3, 0.25)]);
}

#[test]
fn builder_nodes_mirror_the_bottom_level() {
    let ranked = vec![vec![node(2, 0.25), node(1, 0.5)], vec![node(1, 0.5)]];
    let built = into_builder_node(ranked.clone());
    assert_eq!(built.level_neighbors[0].as_ref(), &vec![2, 1]);
    assert_eq!(built.level_neighbors[1].as_ref(), &vec![1]);
    assert_eq!(built.bottom_neighbors.as_ref(), &vec![2, 1]);
    assert_eq!(built.level_neighbors_ranked, ranked);
    assert!(std::sync::Arc::ptr_eq(&built.bottom_neighbors, &built.level_neighbors[0]));
    assert!(into_builder_node(Vec::new()).bottom_neighbors.is_empty());
}
