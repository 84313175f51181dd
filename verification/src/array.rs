//! The columnar arrays that vectors come in, as far as the library reads them.
//!
//! The arrays are those of the `arrow` crates. Each of the functions here makes
//! one call into them; what is claimed of it stands in its contract and is not
//! proved.
use crate::element::{element_named, ElementType};
use arrow_array::{ArrayRef, BooleanArray, FixedSizeListArray};
use arrow_schema::ArrowError;
use vstd::prelude::*;

verus! {

/// A flat array of values of one type. `ArrayRef` is a trait object, which no
/// contract can speak of; what the array holds goes by the names below.
#[verifier::external_body]
pub struct Values {
    pub array: ArrayRef,
}

/// An array of lists of one length.
#[verifier::external_type_specification]
#[verifier::external_body]
pub struct ExFixedSizeListArray(arrow_array::FixedSizeListArray);

/// An array of truth values.
#[verifier::external_type_specification]
#[verifier::external_body]
pub struct ExBooleanArray(arrow_array::BooleanArray);

/// Why the array library declined.
#[verifier::external_type_specification]
#[verifier::external_body]
pub struct ExArrowError(arrow_schema::ArrowError);

/// The name of the type of an array's values.
pub uninterp spec fn array_type(array: Values) -> Seq<char>;

/// Which of an array's values are not null.
pub uninterp spec fn array_valid(array: Values) -> Seq<bool>;

/// The bytes of an array's values, for one of numbers.
pub uninterp spec fn array_bytes(array: Values) -> Seq<u8>;

/// What casting an array to unsigned bytes gives: which values are not null, and
/// the values; nothing where the array cannot be cast.
pub uninterp spec fn array_cast(array: Values) -> Option<(Seq<bool>, Seq<u8>)>;

/// Which of the lists in an array are not null.
pub uninterp spec fn list_rows(list: FixedSizeListArray) -> Seq<bool>;

/// How many values each list in an array has.
pub uninterp spec fn list_width(list: FixedSizeListArray) -> int;

/// The name of the type of the values in the lists of an array.
pub uninterp spec fn list_type(list: FixedSizeListArray) -> Seq<char>;

/// Which of the values in the lists of an array are not null, list after list.
pub uninterp spec fn list_valid(list: FixedSizeListArray) -> Seq<bool>;

/// The bytes of the values in the lists of an array, for one of numbers.
pub uninterp spec fn list_bytes(list: FixedSizeListArray) -> Seq<u8>;

/// The bit patterns of the values in the lists of an array, list after list, for
/// one of floating-point numbers.
pub uninterp spec fn list_bits(list: FixedSizeListArray) -> Seq<u64>;

/// The values of an array of truth values.
pub uninterp spec fn boolean_values(array: BooleanArray) -> Seq<bool>;

/// Which values of an array of truth values are not null.
pub uninterp spec fn boolean_valid(array: BooleanArray) -> Seq<bool>;

/// `n` values or lists, none of them null.
pub open spec fn all_valid(n: nat) -> Seq<bool> {
    Seq::new(n, |i: int| true)
}

/// How many lists of `width` values `n` values make.
pub open spec fn rows_of(n: nat, width: int) -> nat {
    if width == 0 {
        0
    } else {
        n / (width as nat)
    }
}

/// Whether `n` values make lists of `width` values each.
pub open spec fn makes_lists(n: nat, width: int) -> bool {
    (width > 0 && n % (width as nat) == 0) || (width == 0 && n == 0)
}

/// Whether `len` bytes are those of `n` values of `width` bytes each, and at most some
/// that are too few for one more.
pub open spec fn holds_values(len: int, n: int, width: int) -> bool {
    n * width <= len < n * width + width
}

/// Whether an array's values are numbers of a type that vectors are made of.
pub open spec fn is_numeric(label: Seq<char>) -> bool {
    element_named(label) != ElementType::Other
}

/// The text of an error of the array library, by its `Display`. What it says is
/// left open.
#[verifier::external_body]
pub(crate) fn error_text(error: &ArrowError) -> (text: String) {
    error.to_string()
}

/// The name of the type of an array's values: `Array::data_type` as its `Debug`
/// writes it.
#[verifier::external_body]
pub(crate) fn type_of(array: &Values) -> (label: String)
    ensures
        label@ == array_type(*array),
{
    format!("{:?}", arrow_array::Array::data_type(&array.array))
}

/// How many values an array holds: `Array::len`.
#[verifier::external_body]
pub(crate) fn length_of(array: &Values) -> (n: usize)
    ensures
        n == array_valid(*array).len(),
{
    arrow_array::Array::len(&array.array)
}

/// An array of `len` numbers made of their bytes, none of them null:
/// `ArrayDataBuilder::build` on one buffer, which `Buffer::from_slice_ref` copies
/// to an aligned place, and `make_array`. It succeeds where the bytes are those of
/// `len` values.
#[verifier::external_body]
pub(crate) fn numbers(element: ElementType, len: usize, bytes: &Vec<u8>) -> (r: Result<
    Values,
    ArrowError,
>)
    requires
        element != ElementType::Other,
        bytes@.len() == len * element.width(),
    ensures
        r is Ok,
        array_type(r->Ok_0) == element.label(),
        array_valid(r->Ok_0) == all_valid(len as nat),
        array_bytes(r->Ok_0) == bytes@,
{
    let data_type = match element {
        ElementType::UInt8 => arrow_schema::DataType::UInt8,
        ElementType::UInt16 => arrow_schema::DataType::UInt16,
        ElementType::UInt32 => arrow_schema::DataType::UInt32,
        ElementType::UInt64 => arrow_schema::DataType::UInt64,
        ElementType::Float16 => arrow_schema::DataType::Float16,
        ElementType::Float32 => arrow_schema::DataType::Float32,
        ElementType::Float64 => arrow_schema::DataType::Float64,
        ElementType::Other => arrow_schema::DataType::Null,
    };
    let buffer = arrow::buffer::Buffer::from_slice_ref(bytes);
    let builder = arrow::array::ArrayData::builder(data_type).len(len).null_count(0);
    Ok(Values { array: arrow_array::make_array(builder.add_buffer(buffer).build()?) })
}

/// An array cast to unsigned bytes: `arrow::compute::cast` to `UInt8`.
#[verifier::external_body]
pub(crate) fn cast_to_bytes(array: &Values) -> (r: Result<Values, ArrowError>)
    ensures
        r is Ok <==> array_cast(*array) is Some,
        r matches Ok(cast) ==> array_type(cast) == "UInt8"@ && array_cast(*array) == Some(
            (array_valid(cast), array_bytes(cast)),
        ),
{
    Ok(Values { array: arrow::compute::cast(&array.array, &arrow_schema::DataType::UInt8)? })
}

/// The values of an array as lists of `width` values, none of the lists null:
/// `FixedSizeListArray::try_new` with a nullable field named `item`. It fails
/// where `width` is negative or does not divide the number of values; of no
/// values with no width it makes no lists.
#[verifier::external_body]
pub(crate) fn lists_of(values: Values, width: i32) -> (r: Result<
    FixedSizeListArray,
    ArrowError,
>)
    requires
        is_numeric(array_type(values)),
    ensures
        r is Ok <==> makes_lists(array_valid(values).len(), width as int),
        r matches Ok(list) ==> {
            &&& list_width(list) == width
            &&& list_rows(list) == all_valid(rows_of(array_valid(values).len(), width as int))
            &&& list_type(list) == array_type(values)
            &&& list_valid(list) == array_valid(values)
            &&& list_bytes(list) == array_bytes(values)
        },
{
    let data_type = arrow_array::Array::data_type(&values.array).clone();
    let item = arrow_schema::Field::new("item", data_type, true);
    FixedSizeListArray::try_new(std::sync::Arc::new(item), width, values.array, None)
}

/// The name of the type of the values in the lists: `FixedSizeListArray::value_type`
/// as its `Debug` writes it.
#[verifier::external_body]
pub(crate) fn value_type_of(list: &FixedSizeListArray) -> (label: String)
    ensures
        label@ == list_type(*list),
{
    format!("{:?}", list.value_type())
}

/// How many lists there are: `Array::len`.
#[verifier::external_body]
pub(crate) fn row_count(list: &FixedSizeListArray) -> (n: usize)
    ensures
        n == list_rows(*list).len(),
{
    arrow_array::Array::len(list)
}

/// How many values each list has: `FixedSizeListArray::value_length`.
#[verifier::external_body]
pub(crate) fn width_of(list: &FixedSizeListArray) -> (width: i32)
    ensures
        width == list_width(*list),
{
    list.value_length()
}

/// Whether a list is not null: `Array::is_valid`.
#[verifier::external_body]
pub(crate) fn row_is_valid(list: &FixedSizeListArray, row: usize) -> (valid: bool)
    requires
        row < list_rows(*list).len(),
    ensures
        valid == list_rows(*list)[row as int],
{
    arrow_array::Array::is_valid(list, row)
}

/// How many values the lists have altogether: `Array::len` of
/// `FixedSizeListArray::values`. Every way to make such an array gives it one
/// value for each place in its lists, nulls among them.
#[verifier::external_body]
pub(crate) fn value_count(list: &FixedSizeListArray) -> (n: usize)
    ensures
        n == list_valid(*list).len(),
        n == list_rows(*list).len() * list_width(*list),
{
    arrow_array::Array::len(list.values())
}

/// Whether a value in the lists is not null: `Array::is_valid` of
/// `FixedSizeListArray::values`.
#[verifier::external_body]
pub(crate) fn value_is_valid(list: &FixedSizeListArray, at: usize) -> (valid: bool)
    requires
        at < list_valid(*list).len(),
    ensures
        valid == list_valid(*list)[at as int],
{
    arrow_array::Array::is_valid(list.values(), at)
}

/// The bytes of the numbers in the lists: the first of `ArrayData::buffers`. It holds
/// those of every value, one for each place in the lists. A buffer that was made into
/// values by `ScalarBuffer::from` may end in bytes that are too few for one more, and
/// those are among them.
#[verifier::external_body]
pub(crate) fn value_bytes(list: &FixedSizeListArray) -> (bytes: Vec<u8>)
    requires
        is_numeric(list_type(*list)),
    ensures
        bytes@ == list_bytes(*list),
        holds_values(
            bytes@.len() as int,
            list_valid(*list).len() as int,
            element_named(list_type(*list)).width() as int,
        ),
        holds_values(
            bytes@.len() as int,
            list_rows(*list).len() * list_width(*list),
            element_named(list_type(*list)).width() as int,
        ),
{
    arrow_array::Array::to_data(list.values()).buffers()[0].to_vec()
}

/// The bit patterns of the half-precision numbers in the lists: the values of
/// `AsArray::as_primitive`, by `to_bits`.
#[verifier::external_body]
pub(crate) fn half_bits(list: &FixedSizeListArray) -> (bits: Vec<u64>)
    requires
        list_type(*list) == "Float16"@,
    ensures
        bits@ == list_bits(*list),
        bits@.len() == list_valid(*list).len(),
{
    arrow_array::cast::AsArray::as_primitive::<arrow_array::types::Float16Type>(list.values())
        .values()
        .iter()
        .map(|value| u64::from(value.to_bits()))
        .collect()
}

/// The bit patterns of the single-precision numbers in the lists: the values of
/// `AsArray::as_primitive`, by `to_bits`.
#[verifier::external_body]
pub(crate) fn single_bits(list: &FixedSizeListArray) -> (bits: Vec<u64>)
    requires
        list_type(*list) == "Float32"@,
    ensures
        bits@ == list_bits(*list),
        bits@.len() == list_valid(*list).len(),
{
    arrow_array::cast::AsArray::as_primitive::<arrow_array::types::Float32Type>(list.values())
        .values()
        .iter()
        .map(|value| u64::from(value.to_bits()))
        .collect()
}

/// The bit patterns of the double-precision numbers in the lists: the values of
/// `AsArray::as_primitive`, by `to_bits`.
#[verifier::external_body]
pub(crate) fn double_bits(list: &FixedSizeListArray) -> (bits: Vec<u64>)
    requires
        list_type(*list) == "Float64"@,
    ensures
        bits@ == list_bits(*list),
        bits@.len() == list_valid(*list).len(),
{
    arrow_array::cast::AsArray::as_primitive::<arrow_array::types::Float64Type>(list.values())
        .values()
        .iter()
        .map(|value| u64::from(value.to_bits()))
        .collect()
}

/// Truth values as an array, none of them null: `BooleanArray::from`.
#[verifier::external_body]
pub(crate) fn booleans(values: Vec<bool>) -> (array: BooleanArray)
    ensures
        boolean_values(array) == values@,
        boolean_valid(array) == all_valid(values@.len()),
{
    BooleanArray::from(values)
}

/// Values that make lists of `width` make them whole: as many lists as `width` goes into
/// the values, and none is left over.
pub proof fn lemma_lists_are_whole(n: nat, width: int)
    ensures
        makes_lists(n, width) <==> 0 <= width && exists|rows: nat| #[trigger] (rows * width) == n,
        makes_lists(n, width) && width > 0 ==> rows_of(n, width) * width == n,
        width == 0 ==> rows_of(n, width) == 0,
{
    if width > 0 {
        vstd::arithmetic::div_mod::lemma_fundamental_div_mod(n as int, width);
        if makes_lists(n, width) {
            let rows = rows_of(n, width);
            assert(rows * width == width * (n as int / width)) by (nonlinear_arith)
                requires
                    rows == n as int / width,
            ;
            assert(rows * width == n);
        }
        if exists|rows: nat| #[trigger] (rows * width) == n {
            let rows = choose|rows: nat| #[trigger] (rows * width) == n;
            vstd::arithmetic::div_mod::lemma_mod_multiples_basic(rows as int, width);
        }
    } else if width == 0 {
        assert(0nat * width == 0);
        if exists|rows: nat| #[trigger] (rows * width) == n {
            let rows = choose|rows: nat| #[trigger] (rows * width) == n;
            assert(rows * width == 0) by (nonlinear_arith)
                requires
                    width == 0,
            ;
        }
    }
}

} // verus!
