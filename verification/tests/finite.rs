use std::sync::Arc;

use arrow_array::{
    Array, ArrayRef, BooleanArray, FixedSizeListArray, Float16Array, Float32Array, Float64Array,
    Int32Array,
};
use arrow::buffer::NullBuffer;
use arrow_schema::Field;
use exact_hnsw::element::ElementType;
use exact_hnsw::finite::{finite_rows, is_finite, value_is_finite};
use half::f16;

fn lists(values: ArrayRef, dim: i32, nulls: Option<Vec<bool>>) -> FixedSizeListArray {
    let field = Arc::new(Field::new("item", values.data_type().clone(), true));
    FixedSizeListArray::try_new(field, dim, values, nulls.map(NullBuffer::from)).unwrap()
}

fn truth(array: &BooleanArray) -> Vec<bool> {
    assert_eq!(array.null_count(), 0);
    (0..array.len()).map(|i| array.value(i)).collect()
}

#[test]
fn singles_are_told_apart() {
    let values = Float32Array::from(vec![
        Some(0.0),
        Some(f32::MAX),
        Some(f32::NAN),
        Some(1.0),
        Some(1.0),
        Some(f32::INFINITY),
        Some(-1.0),
        None,
        Some(f32::NEG_INFINITY),
        Some(2.0),
        Some(f32::MIN_POSITIVE / 4.0),
        Some(-0.0),
    ]);
    let fsl = lists(Arc::new(values), 2, None);
    assert_eq!(truth(&is_finite(&fsl)), vec![true, false, false, false, false, true]);
}

#[test]
fn halves_and_doubles_are_told_apart() {
    let values = Float16Array::from(vec![f16::MAX, f16::NAN, f16::INFINITY, f16::MIN]);
    let fsl = lists(Arc::new(values), 1, None);
    assert_eq!(truth(&is_finite(&fsl)), vec![true, false, false, true]);
    let values = Float64Array::from(vec![f64::MAX, f64::NAN, f64::NEG_INFINITY, f64::MIN]);
    let fsl = lists(Arc::new(values), 1, None);
    assert_eq!(truth(&is_finite(&fsl)), vec![true, false, false, true]);
}

#[test]
fn nulls_are_not_finite() {
    let values = Float32Array::from(vec![1.0; 6]);
    let fsl = lists(Arc::new(values), 2, Some(vec![true, false, true]));
    assert_eq!(truth(&is_finite(&fsl)), vec![true, false, true]);
    assert_eq!(truth(&is_finite(&fsl.slice(1, 2))), vec![false, true]);
}

#[test]
fn other_values_are_finite_unless_null() {
    let values = Int32Array::from(vec![Some(1), Some(2), None, Some(4)]);
    let fsl = lists(Arc::new(values), 2, None);
    assert_eq!(truth(&is_finite(&fsl)), vec![true, false]);
}

#[test]
fn no_vectors_give_no_answers() {
    let fsl = lists(Arc::new(Float32Array::from(Vec::<f32>::new())), 2, None);
    assert_eq!(is_finite(&fsl).len(), 0);
    let fsl = lists(Arc::new(Float32Array::from(Vec::<f32>::new())), 0, Some(vec![true, false]));
    assert_eq!(truth(&is_finite(&fsl)), vec![true, false]);
}

#[test]
fn bit_patterns_agree_with_the_numbers() {
    for x in [0.0f32, -0.0, 1.0, f32::MAX, f32::MIN, f32::NAN, f32::INFINITY, -f32::NAN, 1e-45] {
        let bits = u64::from(x.to_bits());
        assert_eq!(value_is_finite(ElementType::Float32, bits), x.is_finite());
        let wide = f64::from(x);
        assert_eq!(value_is_finite(ElementType::Float64, wide.to_bits()), wide.is_finite());
    }
    for bits in 0..=u16::MAX {
        let finite = f16::from_bits(bits).is_finite();
        assert_eq!(value_is_finite(ElementType::Float16, u64::from(bits)), finite);
    }
    assert!(value_is_finite(ElementType::UInt64, u64::MAX));
}

#[test]
fn rows_are_judged_by_their_own_values() {
    let nan = u64::from(f32::NAN.to_bits());
    let finite = finite_rows(
        ElementType::Float32,
        &vec![true, true, false, true],
        2,
        &vec![true, true, true, true, true, true, false, true],
        &vec![0, 0, nan, 0, 0, 0, 0, 0],
    );
    assert_eq!(finite, vec![true, false, false, false]);
    let finite = finite_rows(ElementType::Other, &vec![true, true], 1, &vec![true, false], &vec![]);
    assert_eq!(finite, vec![true, false]);
}
