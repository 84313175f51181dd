use exact_hnsw::error::Error;
use exact_hnsw::graph::{sorted_nodes, OrderedNode};
use exact_hnsw::heap::{push, replace_root, sift_down, sift_up, Candidate};
use exact_hnsw::knn::ExactKnn;
use exact_hnsw::lanes::{pop_lane, without_lane};
use exact_hnsw::order::{pack, sorted, unpack};
use exact_hnsw::scan::{scan_rows, scan_upper_triangle, ScoreBlock};
use exact_hnsw::single::Single;
use exact_hnsw::text::{append_decimal, append_list, same_text};
use exact_hnsw::top_k::TopKHeaps;

fn single(x: f32) -> Single {
    Single { bits: x.to_bits() }
}

fn candidate(dot: f32, id: u32) -> Candidate {
    Candidate { dot: single(dot), id }
}

const SAMPLES: [f32; 22] = [
    0.0,
    -0.0,
    1.0,
    -1.0,
    0.5,
    1.5,
    2.0,
    0.1,
    -0.1,
    0.99999994,
    1.0000001,
    1e-45,
    -1e-45,
    1e-8,
    5.9604645e-8,
    2.9802322e-8,
    3.0e38,
    -3.0e38,
    16777216.0,
    16777217.5,
    f32::INFINITY,
    f32::NEG_INFINITY,
];

#[test]
fn singles_compare_as_numbers_do() {
    let mut samples = SAMPLES.to_vec();
    samples.push(f32::NAN);
    for &a in &samples {
        for &b in &samples {
            assert_eq!(single(a).gt(single(b)), a > b, "{a} > {b}");
            assert_eq!(single(a).ge(single(b)), a >= b, "{a} >= {b}");
            let by_key = single(a).total_key() < single(b).total_key();
            assert_eq!(by_key, a.total_cmp(&b).is_lt(), "{a} before {b}");
        }
        assert_eq!(Single::from_total_key(single(a).total_key()), single(a));
    }
}

#[test]
fn one_less_is_rounded_as_the_processor_does() {
    for &x in &SAMPLES {
        assert_eq!(single(x).one_minus(), single(1.0 - x), "1 - {x}");
    }
    let mut state = 88172645463325252u64;
    for _ in 0..200_000 {
        state ^= state << 13;
        state ^= state >> 7;
        state ^= state << 17;
        let x = f32::from_bits((state >> 16) as u32);
        if !x.is_nan() {
            assert_eq!(single(x).one_minus(), single(1.0 - x), "1 - {x}");
        }
        // Around one, where the difference cancels.
        let near = f32::from_bits(0x3f00_0000 + ((state >> 20) as u32 & 0x01ff_ffff));
        assert_eq!(single(near).one_minus(), single(1.0 - near), "1 - {near}");
    }
}

#[test]
fn keys_sort_by_their_halves() {
    assert_eq!(pack(1, 2), 0x1_0000_0002);
    assert_eq!(unpack(pack(u32::MAX, 7)), (u32::MAX, 7));
    assert_eq!(sorted(vec![5, 1, 4, 1, 3]), vec![1, 1, 3, 4, 5]);
    assert_eq!(sorted(Vec::new()), Vec::<u64>::new());
}

#[test]
fn nodes_sort_by_id_or_nearest_first() {
    let node = |id: u32, dist: f32| OrderedNode { id, dist: single(dist) };
    let nodes = vec![node(3, 0.5), node(1, 0.75), node(2, -0.5), node(1, 0.5)];
    assert_eq!(
        sorted_nodes(&nodes, true),
        vec![node(1, 0.5), node(1, 0.75), node(2, -0.5), node(3, 0.5)]
    );
    assert_eq!(
        sorted_nodes(&nodes, false),
        vec![node(2, -0.5), node(1, 0.5), node(3, 0.5), node(1, 0.75)]
    );
}

#[test]
fn heaps_keep_the_weakest_on_top() {
    let mut slots = vec![candidate(9.0, 9); 8];
    let dots = [0.5, 0.25, 0.75, -1.0, 0.0, 2.0];
    for (len, &dot) in dots.iter().enumerate() {
        push(&mut slots, 1, len, candidate(dot, len as u32));
        let least = dots[..=len].iter().copied().fold(f32::INFINITY, f32::min);
        assert_eq!(slots[1].dot, single(least));
    }
    assert_eq!((slots[0], slots[7]), (candidate(9.0, 9), candidate(9.0, 9)));
    replace_root(&mut slots, 1, 6, candidate(1.0, 40));
    assert_eq!(slots[1], candidate(0.0, 4));
    let mut ids: Vec<u32> = slots[1..7].iter().map(|c| c.id).collect();
    ids.sort_unstable();
    assert_eq!(ids, vec![0, 1, 2, 4, 5, 40]);
}

#[test]
fn sifting_restores_a_heap() {
    let mut up = vec![candidate(1.0, 0), candidate(3.0, 1), candidate(2.0, 2), candidate(0.0, 3)];
    sift_up(&mut up, 0, 4);
    assert_eq!(
        up,
        vec![candidate(0.0, 3), candidate(1.0, 0), candidate(2.0, 2), candidate(3.0, 1)]
    );
    let mut down = vec![candidate(9.0, 0), candidate(1.0, 1), candidate(2.0, 2), candidate(3.0, 3)];
    sift_down(&mut down, 0, 4);
    assert_eq!(
        down,
        vec![candidate(1.0, 1), candidate(3.0, 3), candidate(2.0, 2), candidate(9.0, 0)]
    );
}

#[test]
fn sifting_nothing_changes_nothing() {
    let mut slots = vec![candidate(2.0, 0), candidate(1.0, 1)];
    sift_down(&mut slots, 1, 0);
    assert_eq!(slots, vec![candidate(2.0, 0), candidate(1.0, 1)]);
}

#[test]
fn lanes_are_taken_from_below() {
    assert_eq!(pop_lane(0b1010_0000), (5, 0b1000_0000));
    assert_eq!(pop_lane(0x8000), (15, 0));
    assert_eq!(without_lane(0b111, 1), 0b101);
    assert_eq!(without_lane(0b101, 1), 0b101);
}

#[test]
fn numbers_and_lists_are_written_out() {
    let mut text = String::from("n = ");
    append_decimal(&mut text, 0);
    append_decimal(&mut text, u64::MAX);
    assert_eq!(text, "n = 018446744073709551615");
    let mut text = String::new();
    append_list(&mut text, &vec![]);
    append_list(&mut text, &vec![7]);
    append_list(&mut text, &vec![4, 50, 600]);
    assert_eq!(text, "[][7][4, 50, 600]");
    assert!(same_text("flat", "flat"));
    assert!(!same_text("flat", "flat+amx"));
    assert!(!same_text("flat", "Flat"));
}

/// The larger the dot product, the smaller the distance.
#[test]
fn one_less_reverses_the_order() {
    for &a in &SAMPLES {
        for &b in &SAMPLES {
            if a >= b {
                let (near, far) = (single(a).one_minus(), single(b).one_minus());
                assert!(near.total_key() <= far.total_key(), "1 - {a} and 1 - {b}");
            }
        }
    }
    assert_eq!(single(0.0).one_minus(), single(-0.0).one_minus());
}

#[test]
fn heaps_admit_what_beats_the_weakest() {
    let mut heaps = TopKHeaps::new(2, 2).unwrap();
    assert_eq!(heaps.thresholds, vec![single(f32::NEG_INFINITY); 2]);
    let mut bar = f32::NEG_INFINITY;
    for (id, dot) in [0.5, f32::NAN, f32::NEG_INFINITY, -2.0, 0.25, -3.0, 0.75].into_iter().enumerate()
    {
        heaps.offer(0, single(dot), id as u32 + 1);
        let now = f32::from_bits(heaps.thresholds[0].bits);
        assert!(now >= bar, "the bar fell from {bar} to {now}");
        bar = now;
    }
    assert_eq!(bar, 0.5);
    heaps.offer(1, single(1.0), 0);
    heaps.offer(1, single(1.0), 5);
    let knn = heaps.into_knn(2).unwrap();
    assert_eq!(knn.neighbours(0).0, &[7, 1]);
    assert_eq!(knn.neighbours(0).1, &[single(0.25), single(0.5)]);
    assert_eq!(knn.neighbours(1).0, &[0, 5]);
    assert_eq!(knn.neighbours(1).1, &[single(0.0), single(0.0)]);
}

/// The same candidate may be offered again: each offer counts for itself.
#[test]
fn heaps_hold_the_top_of_any_offers() {
    let mut heaps = TopKHeaps::new(2, 3).unwrap();
    for (dot, id) in [
        (0.5, 7),
        (0.5, 7),
        (f32::NAN, 7),
        (f32::NEG_INFINITY, 1),
        (0.25, 7),
        (0.75, 7),
        (0.5, 2),
        (0.125, 3),
    ] {
        heaps.offer(1, single(dot), id);
    }
    assert_eq!(heaps.lens, vec![0, 3]);
    let mut held: Vec<(u32, u32)> = heaps.slots[3..6].iter().map(|c| (c.dot.bits, c.id)).collect();
    held.sort_unstable();
    let (half, most) = (single(0.5).bits, single(0.75).bits);
    assert_eq!(held, vec![(half, 7), (half, 7), (most, 7)]);
    heaps.offer(0, single(1.0), 1);
    heaps.offer(0, single(3.0), 1);
    heaps.offer(0, single(2.0), 1);
    let knn = heaps.into_knn(2).unwrap();
    assert_eq!(knn.neighbours(0), (&[1, 1, 1][..], &[single(-2.0), single(-1.0), single(0.0)][..]));
    assert_eq!(knn.neighbours(1).0, [7, 7, 7]);
}

fn listed(offers: &[(f32, u32)], k: usize) -> Result<ExactKnn, Error> {
    let mut heaps = TopKHeaps::new(1, k).unwrap();
    for &(dot, id) in offers {
        heaps.offer(0, single(dot), id);
    }
    heaps.into_knn(1)
}

/// Offers in another order list the same neighbours, unless equals stand on either
/// side of the last place; then they are as near.
#[test]
fn the_order_of_offers_does_not_decide() {
    let offers = [
        (0.5, 1),
        (0.25, 2),
        (f32::NAN, 3),
        (0.75, 4),
        (0.25, 5),
        (-1.0, 6),
        (0.5, 1),
        (f32::NEG_INFINITY, 7),
    ];
    let mut turned = offers;
    turned.reverse();
    for k in [1, 3, 5, 6] {
        assert_eq!(listed(&offers, k).unwrap(), listed(&turned, k).unwrap(), "{k} of the offers");
    }
    let all = listed(&turned, 6).unwrap();
    assert_eq!(all.neighbours(0).0, &[4, 1, 1, 2, 5, 6]);
    assert_eq!(all.neighbours(0).1, [0.25, 0.5, 0.5, 0.75, 0.75, 2.0].map(single).as_slice());

    let (one, other) =
        (listed(&[(0.5, 1), (0.5, 2)], 1).unwrap(), listed(&[(0.5, 2), (0.5, 1)], 1).unwrap());
    assert_eq!(one.neighbours(0).0, &[1]);
    assert_eq!(other.neighbours(0).0, &[2]);
    assert_eq!(one.neighbours(0).1, other.neighbours(0).1);

    let (one, other) = (listed(&offers, 7).unwrap_err(), listed(&turned, 7).unwrap_err());
    assert_eq!(one.message(), other.message());
    assert!(one.message().contains("node 0 found only 6 of 7 neighbours"));
}

#[test]
fn heaps_report_what_they_cannot_hold() {
    let error = match TopKHeaps::new(usize::MAX, 2) {
        Err(error) => error,
        Ok(_) => panic!("too many slots"),
    };
    assert!(matches!(error, Error::InvalidInput { .. }));
    assert_eq!(
        error.message(),
        format!("exact_knn_topk: n ({}) * k (2) neighbour slots overflows usize", usize::MAX)
    );
    let mut heaps = TopKHeaps::new(2, 1).unwrap();
    heaps.offer(0, single(1.0), 1);
    let error = heaps.into_knn(2).unwrap_err();
    assert!(matches!(error, Error::InvalidInput { .. }));
    assert_eq!(
        error.message(),
        "exact_knn_topk: node 1 found only 0 of 1 neighbours; the partition's vectors must all \
         be finite"
    );
}

/// One block on the diagonal, with a column of padding, folded both ways.
#[test]
fn a_block_folds_into_the_nodes_it_touches() {
    let at = |i: usize, j: usize| (i * j) as f32 - 3.0 * (i + j) as f32;
    let scores: Vec<Single> = (0..4)
        .flat_map(|i| (0..5).map(move |j| single(if j == 4 { 100.0 } else { at(i, j) })))
        .collect();
    let block =
        ScoreBlock { scores: &scores, stride: 5, row_start: 0, rows: 4, col_start: 0, cols: 4 };
    let mut halved = TopKHeaps::new(4, 3).unwrap();
    let mut full = TopKHeaps::new(4, 3).unwrap();
    let mut masks = vec![0u16; 8];
    scan_upper_triangle(&block, &mut halved, &mut masks);
    scan_rows(&block, &mut full, &mut masks);
    let (halved, full) = (halved.into_knn(4).unwrap(), full.into_knn(4).unwrap());
    assert_eq!(halved, full);
    assert_eq!(full.neighbours(0).0, &[1, 2, 3]);
    assert_eq!(full.neighbours(0).1, &[single(4.0), single(7.0), single(10.0)]);
    assert_eq!(full.neighbours(3).0, &[0, 1, 2]);
}

/// A block whose pairs were offered before offers them again.
#[test]
fn a_block_may_come_again() {
    let scores: Vec<Single> =
        [9.0, 0.5, 0.25, 0.5, 9.0, 0.125, 0.25, 0.125, 9.0].into_iter().map(single).collect();
    let block =
        ScoreBlock { scores: &scores, stride: 3, row_start: 0, rows: 3, col_start: 0, cols: 3 };
    let mut masks = vec![0u16; 3];
    let mut heaps = TopKHeaps::new(3, 3).unwrap();
    scan_rows(&block, &mut heaps, &mut masks);
    assert_eq!(heaps.lens, vec![2; 3]);
    scan_upper_triangle(&block, &mut heaps, &mut masks);
    let knn = heaps.into_knn(3).unwrap();
    assert_eq!(knn.neighbours(0).0, &[1, 1, 2]);
    assert_eq!(knn.neighbours(0).1, &[single(0.5), single(0.5), single(0.75)]);
    assert_eq!(knn.neighbours(1).0, &[0, 0, 2]);
    assert_eq!(knn.neighbours(2).0, &[0, 0, 1]);
}

/// Columns before the first row have no pair with `i < j`, and later ones do.
#[test]
fn a_block_may_start_before_its_rows() {
    let scores = vec![single(0.5); 18];
    let block =
        ScoreBlock { scores: &scores, stride: 18, row_start: 16, rows: 1, col_start: 0, cols: 18 };
    let mut heaps = TopKHeaps::new(18, 1).unwrap();
    let mut masks = vec![0u16; 1];
    scan_upper_triangle(&block, &mut heaps, &mut masks);
    for node in 0..18 {
        let stored = &heaps.slots[node..node + heaps.lens[node] as usize];
        match node {
            16 => assert_eq!(stored, [candidate(0.5, 17)]),
            17 => assert_eq!(stored, [candidate(0.5, 16)]),
            _ => assert!(stored.is_empty(), "node {node}"),
        }
    }
}

#[test]
fn a_block_without_columns_or_rows_brings_nothing() {
    for (rows, cols) in [(0, 2), (2, 0), (0, 0)] {
        let scores = vec![single(0.5); rows * cols];
        let block =
            ScoreBlock { scores: &scores, stride: cols, row_start: 0, rows, col_start: 1, cols };
        let mut heaps = TopKHeaps::new(4, 1).unwrap();
        scan_upper_triangle(&block, &mut heaps, &mut Vec::new());
        scan_rows(&block, &mut heaps, &mut Vec::new());
        assert_eq!(heaps.lens, vec![0; 4]);
    }
}
