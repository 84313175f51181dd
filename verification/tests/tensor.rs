use std::sync::Arc;

use arrow::buffer::{Buffer, ScalarBuffer};
use arrow_array::{
    Array, ArrayRef, FixedSizeListArray, Float16Array, Float32Array, Float64Array, Int32Array,
    UInt16Array, UInt32Array, UInt64Array, UInt8Array,
};
use arrow_schema::Field;
use exact_hnsw::error::Error;
use exact_hnsw::tensor::{Tensor, TensorDataType};
use half::f16;

fn lists(values: ArrayRef, dim: i32) -> FixedSizeListArray {
    let field = Arc::new(Field::new("item", values.data_type().clone(), true));
    FixedSizeListArray::try_new(field, dim, values, None).unwrap()
}

fn assert_round_trip(values: ArrayRef, data_type: TensorDataType, width: usize) {
    let fsl = lists(values, 5);
    let tensor = Tensor::from_list(&fsl).unwrap();
    assert_eq!(tensor.data_type, data_type);
    assert_eq!(tensor.shape, vec![4, 5]);
    assert_eq!(tensor.data.len(), 20 * width);
    let decoded = tensor.to_list().unwrap();
    assert_eq!(decoded.len(), 4);
    assert_eq!(decoded.values().to_data(), fsl.values().to_data());
}

#[test]
fn test_fsl_to_tensor() {
    assert_round_trip(
        Arc::new(Float16Array::from(vec![f16::ZERO; 20])),
        TensorDataType::Float16,
        2,
    );
    assert_round_trip(Arc::new(Float32Array::from(vec![0.0; 20])), TensorDataType::Float32, 4);
    assert_round_trip(Arc::new(Float64Array::from(vec![0.0; 20])), TensorDataType::Float64, 8);
}

#[test]
fn round_trips_keep_the_values() {
    let range = || 1..=20u8;
    assert_round_trip(
        Arc::new(UInt8Array::from_iter_values(range())),
        TensorDataType::Uint8,
        1,
    );
    assert_round_trip(
        Arc::new(UInt16Array::from_iter_values(range().map(|x| u16::from(x) * 3000))),
        TensorDataType::Uint16,
        2,
    );
    assert_round_trip(
        Arc::new(UInt32Array::from_iter_values(range().map(|x| u32::from(x) << 24))),
        TensorDataType::Uint32,
        4,
    );
    assert_round_trip(
        Arc::new(UInt64Array::from_iter_values(range().map(|x| u64::from(x) << 50))),
        TensorDataType::Uint64,
        8,
    );
    assert_round_trip(
        Arc::new(Float32Array::from_iter_values(range().map(|x| f32::from(x) / 3.0))),
        TensorDataType::Float32,
        4,
    );
}

/// Part of an array encodes as just that part.
#[test]
fn a_slice_encodes_its_own_rows() {
    let fsl = lists(Arc::new(UInt16Array::from_iter_values(0..20)), 5).slice(1, 2);
    let tensor = Tensor::from_list(&fsl).unwrap();
    assert_eq!(tensor.shape, vec![2, 5]);
    let want: Vec<u8> = (5..15u16).flat_map(|x| x.to_ne_bytes()).collect();
    assert_eq!(tensor.data, want);
}

#[test]
fn encoding_what_was_decoded_gives_the_tensor_back() {
    let tensor = Tensor {
        data_type: TensorDataType::Uint16,
        shape: vec![2, 3],
        data: (0..12).collect(),
    };
    let again = Tensor::from_list(&tensor.to_list().unwrap()).unwrap();
    assert_eq!(again.data_type, tensor.data_type);
    assert_eq!(again.shape, tensor.shape);
    assert_eq!(again.data, tensor.data);
}

/// Bytes of a buffer that are too few for one more value are carried along, and such a
/// tensor does not decode.
#[test]
fn encodes_the_bytes_behind_the_last_value() {
    let buffer = Buffer::from_slice_ref([1u8, 0, 0, 0, 9]);
    let values = UInt32Array::new(ScalarBuffer::from(buffer), None);
    assert_eq!(values.values().as_ref(), &[1]);
    let tensor = Tensor::from_list(&lists(Arc::new(values), 1)).unwrap();
    assert_eq!(tensor.shape, vec![1, 1]);
    assert_eq!(tensor.data, vec![1, 0, 0, 0, 9]);
    assert_eq!(
        tensor.to_list().unwrap_err().message(),
        "Tensor shape [1, 1] with data type UInt32 requires 4 bytes, got 5"
    );
}

#[test]
fn test_tensor_to_fsl_rejects_invalid_data_length() {
    for data in [vec![0; 7], vec![0; 9]] {
        let got = data.len();
        let tensor = Tensor { data_type: TensorDataType::Uint32, shape: vec![1, 2], data };
        let error = tensor.to_list().unwrap_err();
        assert!(error.message().contains("requires 8 bytes"));
        assert!(matches!(error, Error::Index { .. }));
        assert_eq!(
            error.message(),
            format!("Tensor shape [1, 2] with data type UInt32 requires 8 bytes, got {got}")
        );
    }
}

#[test]
fn rejects_other_ranks() {
    for (shape, text) in [(vec![], "[]"), (vec![4], "[4]"), (vec![1, 2, 3], "[1, 2, 3]")] {
        let tensor = Tensor { data_type: TensorDataType::Float32, shape, data: vec![] };
        let error = tensor.to_list().unwrap_err();
        assert!(matches!(error, Error::Index { .. }));
        assert_eq!(error.message(), format!("only accept 2-D tensor shape, got: {text}"));
    }
}

#[test]
fn rejects_shapes_with_too_many_bytes() {
    let tensor = Tensor {
        data_type: TensorDataType::Float64,
        shape: vec![u32::MAX, u32::MAX],
        data: vec![],
    };
    let error = tensor.to_list().unwrap_err();
    assert!(matches!(error, Error::Index { .. }));
    assert_eq!(
        error.message(),
        "Tensor shape [4294967295, 4294967295] exceeds the supported byte length"
    );
}

/// A list cannot have more values than a signed number counts.
#[test]
fn rejects_columns_beyond_a_list() {
    let tensor =
        Tensor { data_type: TensorDataType::Uint8, shape: vec![0, 1 << 31], data: vec![] };
    let error = tensor.to_list().unwrap_err();
    assert!(matches!(error, Error::Arrow { .. }));
    assert!(!error.message().is_empty());
}

/// Rows without columns leave no lists.
#[test]
fn rows_without_columns_decode_to_nothing() {
    let tensor = Tensor { data_type: TensorDataType::Float32, shape: vec![3, 0], data: vec![] };
    let decoded = tensor.to_list().unwrap();
    assert_eq!(decoded.len(), 0);
    assert_eq!(decoded.value_length(), 0);
}

#[test]
fn rejects_values_that_a_tensor_cannot_hold() {
    let fsl = lists(Arc::new(Int32Array::from(vec![0; 4])), 2);
    let error = Tensor::from_list(&fsl).unwrap_err();
    assert!(matches!(error, Error::Index { .. }));
    assert_eq!(error.message(), "pb tensor type not supported: Int32");
    let nested = lists(Arc::new(fsl), 1);
    let error = Tensor::from_list(&nested).unwrap_err();
    assert!(error.message().starts_with("pb tensor type not supported: FixedSizeList("));
}
