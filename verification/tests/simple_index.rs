use arrow::compute::cast;
use arrow_array::cast::AsArray;
use arrow_array::types::{Float32Type, UInt8Type};
use arrow_array::{
    Array, ArrayRef, FixedSizeListArray, Float16Array, Float32Array, Float64Array,
    StringArray, UInt8Array,
};
use arrow_schema::{DataType, Field};
use exact_hnsw::array::Values;
use exact_hnsw::assignment::{AmxAvailability, ApproxAssignParams, SimpleIndexStatus};
use exact_hnsw::distance::DistanceType;
use exact_hnsw::error::Error;
use exact_hnsw::graph::OrderedNode;
use exact_hnsw::simple_index::{SimpleIndex, SimpleStore};
use exact_hnsw::single::Single;
use half::f16;
use std::sync::Arc;

const NO_AMX: AmxAvailability = AmxAvailability { native: false, rounded: false };

fn params() -> ApproxAssignParams {
    ApproxAssignParams::from_settings(None, None, None)
}

/// What an index was built with; the lookup scans the store.
#[derive(Debug, PartialEq)]
struct Scan {
    ef_construction: usize,
    num_edges: usize,
}

fn build(_: &SimpleStore, ef_construction: usize, num_edges: usize) -> Result<Scan, Error> {
    Ok(Scan { ef_construction, num_edges })
}

/// The nearest rows of the store, by a scan.
fn lookup(
    _: &Scan,
    store: &SimpleStore,
    query: Values,
    k: usize,
    _: usize,
) -> Result<Vec<OrderedNode>, Error> {
    let query = query.array;
    let mut found: Vec<OrderedNode> = match store {
        SimpleStore::Float { centroids, .. } => {
            let query = query.as_primitive::<Float32Type>().values().to_vec();
            (0..centroids.len())
                .map(|id| {
                    let row = centroids.value(id);
                    let row = row.as_primitive::<Float32Type>().values().to_vec();
                    let dist: f32 = row.iter().zip(&query).map(|(a, b)| (a - b) * (a - b)).sum();
                    OrderedNode { id: id as u32, dist: Single { bits: dist.to_bits() } }
                })
                .collect()
        }
        SimpleStore::Binary { centroids, .. } => {
            let query = query.as_primitive::<UInt8Type>().values().to_vec();
            (0..centroids.len())
                .map(|id| {
                    let row = centroids.value(id);
                    let row = row.as_primitive::<UInt8Type>().values().to_vec();
                    let bits: u32 = row.iter().zip(&query).map(|(a, b)| (a ^ b).count_ones()).sum();
                    let dist = bits as f32;
                    OrderedNode { id: id as u32, dist: Single { bits: dist.to_bits() } }
                })
                .collect()
        }
    };
    found.sort_by(|a, b| f32::from_bits(a.dist.bits).total_cmp(&f32::from_bits(b.dist.bits)));
    found.truncate(k);
    Ok(found)
}

fn lists(values: ArrayRef, dim: i32) -> FixedSizeListArray {
    let field = Arc::new(Field::new("item", values.data_type().clone(), true));
    FixedSizeListArray::try_new(field, dim, values, None).unwrap()
}

fn build_index(centroids: ArrayRef, dim: usize) -> SimpleIndex<Scan> {
    let wide = cast(&centroids, &DataType::Float32).unwrap();
    let store = SimpleStore::Float {
        centroids: lists(wide, dim as i32),
        distance_type: DistanceType::L2,
    };
    SimpleIndex::try_new(store, params(), &build).unwrap()
}

fn build_binary_index(centroids: ArrayRef, dim: usize) -> SimpleIndex<Scan> {
    let store = SimpleStore::Binary {
        centroids: lists(centroids, dim as i32),
        distance_type: DistanceType::Hamming,
    };
    SimpleIndex::try_new(store, params(), &build).unwrap()
}

fn found(index: &SimpleIndex<Scan>, query: ArrayRef) -> (u32, f32) {
    let (id, dist) = index.search(Values { array: query }, params(), &lookup).unwrap();
    (id, f32::from_bits(dist.bits))
}

fn trained(
    centroids: ArrayRef,
    dimension: usize,
    distance_type: DistanceType,
    status: SimpleIndexStatus,
) -> Result<Option<SimpleIndex<Scan>>, Error> {
    SimpleIndex::may_train_index(
        Values { array: centroids },
        dimension,
        distance_type,
        NO_AMX,
        status,
        params(),
        &build,
    )
}

#[test]
fn test_simple_index_nearest_centroid() {
    let half: ArrayRef = Arc::new(Float16Array::from(
        (0..100).flat_map(|i| std::iter::repeat_n(f16::from_f32(i as f32), 16)).collect::<Vec<_>>(),
    ));
    let single: ArrayRef = Arc::new(Float32Array::from(
        (0..100).flat_map(|i| std::iter::repeat_n(i as f32, 16)).collect::<Vec<_>>(),
    ));
    for centroids in [half, single] {
        let index = build_index(centroids, 16);
        let query: ArrayRef = Arc::new(Float32Array::from(vec![42.0f32; 16]));
        let (id, dist) = found(&index, query);
        assert_eq!(id, 42);
        assert_eq!(dist, 0.0);
    }
}

#[test]
fn test_simple_index_nearest_centroid_binary() {
    let centroids: ArrayRef = Arc::new(UInt8Array::from(
        (0..100).flat_map(|i| std::iter::repeat_n(i as u8, 16)).collect::<Vec<_>>(),
    ));
    let index = build_binary_index(centroids, 16);
    let query: ArrayRef = Arc::new(UInt8Array::from(vec![42u8; 16]));
    let (id, dist) = found(&index, query);
    assert_eq!(id, 42);
    assert_eq!(dist, 0.0);
}

/// A query of another type is cast to bytes before binary centroids are searched.
#[test]
fn binary_lookup_casts_the_query() {
    let centroids: ArrayRef = Arc::new(UInt8Array::from(
        (0..100).flat_map(|i| std::iter::repeat_n(i as u8, 16)).collect::<Vec<_>>(),
    ));
    let index = build_binary_index(centroids, 16);
    let query: ArrayRef = Arc::new(Float32Array::from(vec![17.0f32; 16]));
    assert_eq!(found(&index, query), (17, 0.0));
    let coded: ArrayRef = Arc::new(UInt8Array::from(vec![17u8; 16]));
    let coding = DataType::Dictionary(Box::new(DataType::Int32), Box::new(DataType::UInt8));
    assert_eq!(found(&index, cast(&coded, &coding).unwrap()), (17, 0.0));
    let nested: ArrayRef = Arc::new(lists(Arc::new(Float32Array::from(vec![1.0; 4])), 2));
    let error = index.search(Values { array: nested }, params(), &lookup).unwrap_err();
    assert!(matches!(error, Error::Index { .. }));
    assert!(!error.message().is_empty());
}

/// A query over floating-point centroids is handed on as it is.
#[test]
fn float_lookup_leaves_the_query_alone() {
    let index = build_index(Arc::new(Float32Array::from(vec![1.0; 4])), 2);
    let query: ArrayRef = Arc::new(StringArray::from(vec!["x"]));
    let seen = |_: &Scan, _: &SimpleStore, query: Values, k: usize, ef: usize| {
        assert_eq!(query.array.data_type(), &DataType::Utf8);
        assert_eq!((k, ef), (1, 15));
        Err(Error::Index { message: "no graph".to_string() })
    };
    let error = index.search(Values { array: query }, params(), &seen).unwrap_err();
    assert_eq!(error.message(), "no graph");
}

#[test]
fn test_simple_index_rejects_f64() {
    let centroids: ArrayRef = Arc::new(Float64Array::from(vec![0.0; 1600]));
    let result = trained(centroids.clone(), 16, DistanceType::L2, SimpleIndexStatus::Auto).unwrap();
    assert!(result.is_none());
    let result = trained(centroids, 16, DistanceType::L2, SimpleIndexStatus::Enabled).unwrap();
    assert!(result.is_none());
}

#[test]
fn test_simple_index_rejects_uint8_non_hamming() {
    let centroids: ArrayRef = Arc::new(UInt8Array::from(vec![0u8; 1600]));
    let result = trained(centroids.clone(), 16, DistanceType::L2, SimpleIndexStatus::Auto).unwrap();
    assert!(result.is_none());
    let result = trained(centroids, 16, DistanceType::L2, SimpleIndexStatus::Enabled).unwrap();
    assert!(result.is_none());
}

#[test]
fn trains_over_supported_centroids() {
    let enabled = SimpleIndexStatus::Enabled;
    let centroids: ArrayRef = Arc::new(Float32Array::from(vec![0.5; 1600]));
    let simple = trained(centroids.clone(), 16, DistanceType::L2, enabled).unwrap().unwrap();
    assert_eq!(simple.index, Scan { ef_construction: 15, num_edges: 12 });
    match &simple.store {
        SimpleStore::Float { centroids: lists, distance_type } => {
            assert_eq!(lists.len(), 100);
            assert_eq!(lists.value_length(), 16);
            assert_eq!(lists.values().to_data(), centroids.to_data());
            assert_eq!(*distance_type, DistanceType::L2);
        }
        SimpleStore::Binary { .. } => panic!("floating-point centroids in a binary store"),
    }
    let bytes: ArrayRef = Arc::new(UInt8Array::from(vec![7u8; 1600]));
    let simple = trained(bytes, 16, DistanceType::Hamming, enabled).unwrap().unwrap();
    assert!(matches!(simple.store, SimpleStore::Binary { .. }));
    let half: ArrayRef = Arc::new(Float16Array::from(vec![f16::from_f32(1.0); 32]));
    assert!(trained(half, 16, DistanceType::Cosine, enabled).unwrap().is_some());
}

#[test]
fn trains_only_where_it_pays() {
    let enough: ArrayRef = Arc::new(Float32Array::from(vec![0.5; 1_000_000]));
    let auto = SimpleIndexStatus::Auto;
    assert!(trained(enough.clone(), 1000, DistanceType::Dot, auto).unwrap().is_some());
    let disabled = SimpleIndexStatus::Disabled;
    assert!(trained(enough.clone(), 1000, DistanceType::Dot, disabled).unwrap().is_none());
    // The exact scan is better served by the kernel.
    let served = SimpleIndex::may_train_index(
        Values { array: enough },
        1000,
        DistanceType::Dot,
        AmxAvailability { native: true, rounded: true },
        auto,
        params(),
        &build,
    );
    assert!(served.unwrap().is_none());
}

#[test]
fn declines_a_zero_dimension() {
    let centroids: ArrayRef = Arc::new(Float32Array::from(vec![0.5; 16]));
    let result = trained(centroids, 0, DistanceType::L2, SimpleIndexStatus::Enabled).unwrap();
    assert!(result.is_none());
}

#[test]
fn reports_centroids_that_do_not_divide() {
    let centroids: ArrayRef = Arc::new(Float32Array::from(vec![0.5; 17]));
    let result = trained(centroids, 16, DistanceType::L2, SimpleIndexStatus::Enabled);
    let error = match result {
        Err(error) => error,
        Ok(_) => panic!("seventeen values make no vectors of sixteen"),
    };
    assert!(matches!(error, Error::Arrow { .. }));
    assert!(error.message().contains("multiple of 16"));
}

#[test]
fn hands_on_what_the_graph_reports() {
    let centroids: ArrayRef = Arc::new(Float32Array::from(vec![0.5; 32]));
    let failing = |_: &SimpleStore, _: usize, _: usize| -> Result<Scan, Error> {
        Err(Error::Index { message: "no room".to_string() })
    };
    let result = SimpleIndex::may_train_index(
        Values { array: centroids },
        16,
        DistanceType::L2,
        NO_AMX,
        SimpleIndexStatus::Enabled,
        params(),
        &failing,
    );
    match result {
        Err(error) => assert_eq!(error.message(), "no room"),
        Ok(_) => panic!("the graph was refused"),
    }
}
