//! Tensors: arrays of vectors as a type, a shape and bytes.
use crate::array::{
    all_valid, error_text, holds_values, is_numeric, list_bytes, list_rows, list_type, list_valid,
    list_width, lists_of, makes_lists, numbers, row_count, rows_of, value_bytes, value_type_of,
    width_of,
};
use crate::element::{element_named, ElementType};
use crate::error::Error;
use crate::text::{append_decimal, append_list, bracketed, decimal, lemma_list_text};
use arrow_array::FixedSizeListArray;
use vstd::prelude::*;
use vstd::string::StringExecFns;

verus! {

/// The type of a tensor's values.
#[derive(Clone, Copy, Debug, PartialEq, Eq, Structural)]
pub enum TensorDataType {
    Bfloat16,
    Float16,
    Float32,
    Float64,
    Uint8,
    Uint16,
    Uint32,
    Uint64,
}

/// Values of one type in rows and columns.
#[derive(Debug)]
pub struct Tensor {
    pub data_type: TensorDataType,
    /// The length of each dimension, the outermost first.
    pub shape: Vec<u32>,
    /// The values, row after row.
    pub data: Vec<u8>,
}

impl TensorDataType {
    /// The type of the values of an array that holds such a tensor; there is none
    /// for [`TensorDataType::Bfloat16`].
    pub open spec fn element(self) -> ElementType {
        match self {
            TensorDataType::Uint8 => ElementType::UInt8,
            TensorDataType::Uint16 => ElementType::UInt16,
            TensorDataType::Uint32 => ElementType::UInt32,
            TensorDataType::Uint64 => ElementType::UInt64,
            TensorDataType::Float16 => ElementType::Float16,
            TensorDataType::Float32 => ElementType::Float32,
            TensorDataType::Float64 => ElementType::Float64,
            TensorDataType::Bfloat16 => ElementType::Other,
        }
    }

    /// The type of the values of an array that holds such a tensor.
    pub fn element_type(self) -> (element: ElementType)
        requires
            self != TensorDataType::Bfloat16,
        ensures
            element == self.element(),
            element != ElementType::Other,
    {
        match self {
            TensorDataType::Uint8 => ElementType::UInt8,
            TensorDataType::Uint16 => ElementType::UInt16,
            TensorDataType::Uint32 => ElementType::UInt32,
            TensorDataType::Uint64 => ElementType::UInt64,
            TensorDataType::Float16 => ElementType::Float16,
            TensorDataType::Float32 => ElementType::Float32,
            TensorDataType::Float64 => ElementType::Float64,
            TensorDataType::Bfloat16 => ElementType::Other,
        }
    }

    /// The tensor type for the values of an array, by the name of their type.
    pub fn of_values(label: &str) -> (r: Result<TensorDataType, Error>)
        ensures
            r is Ok <==> is_numeric(label@),
            r matches Ok(data_type) ==> data_type != TensorDataType::Bfloat16
                && data_type.element() == element_named(label@),
            r matches Err(e) ==> e is Index && e.text() == unsupported_type(label@),
    {
        match ElementType::named(label) {
            ElementType::UInt8 => Ok(TensorDataType::Uint8),
            ElementType::UInt16 => Ok(TensorDataType::Uint16),
            ElementType::UInt32 => Ok(TensorDataType::Uint32),
            ElementType::UInt64 => Ok(TensorDataType::Uint64),
            ElementType::Float16 => Ok(TensorDataType::Float16),
            ElementType::Float32 => Ok(TensorDataType::Float32),
            ElementType::Float64 => Ok(TensorDataType::Float64),
            ElementType::Other => {
                let mut message = String::from_str("pb tensor type not supported: ");
                message.append(label);
                Err(Error::Index { message })
            },
        }
    }
}

/// What is reported for values that a tensor cannot hold.
pub open spec fn unsupported_type(label: Seq<char>) -> Seq<char> {
    "pb tensor type not supported: "@ + label
}

/// What is reported for a tensor that is not one of rows and columns.
pub open spec fn wrong_rank(shape: Seq<u32>) -> Seq<char> {
    "only accept 2-D tensor shape, got: "@ + bracketed(shape)
}

/// What is reported for more values than can be counted.
pub open spec fn too_many_values(shape: Seq<u32>) -> Seq<char> {
    "Tensor shape "@ + bracketed(shape) + " exceeds the supported size"@
}

/// What is reported for more bytes than can be counted.
pub open spec fn too_many_bytes(shape: Seq<u32>) -> Seq<char> {
    "Tensor shape "@ + bracketed(shape) + " exceeds the supported byte length"@
}

/// What is reported where the bytes are not those of the values.
pub open spec fn wrong_length(
    shape: Seq<u32>,
    label: Seq<char>,
    expected: nat,
    got: nat,
) -> Seq<char> {
    "Tensor shape "@ + bracketed(shape) + " with data type "@ + label + " requires "@ + decimal(
        expected,
    ) + " bytes, got "@ + decimal(got)
}

/// How many values a shape of rows and columns has.
pub open spec fn value_count(shape: Seq<u32>) -> nat {
    shape[0] as nat * shape[1] as nat
}

/// Whether the error is the one that a tensor calls for whose shape and bytes do
/// not fit together.
pub open spec fn is_shape_error(tensor: &Tensor, e: Error) -> bool {
    let shape = tensor.shape@;
    let width = tensor.data_type.element().width();
    e is Index && if shape.len() != 2 {
        e.text() == wrong_rank(shape)
    } else if value_count(shape) > usize::MAX {
        e.text() == too_many_values(shape)
    } else if value_count(shape) * width > usize::MAX {
        e.text() == too_many_bytes(shape)
    } else {
        e.text() == wrong_length(
            shape,
            tensor.data_type.element().label(),
            value_count(shape) * width,
            tensor.data@.len(),
        )
    }
}

/// Whether a tensor has rows and columns, and the bytes of as many values.
pub open spec fn is_well_shaped(tensor: &Tensor) -> bool {
    &&& tensor.shape@.len() == 2
    &&& value_count(tensor.shape@) <= usize::MAX
    &&& value_count(tensor.shape@) * tensor.data_type.element().width() == tensor.data@.len()
}

/// Whether the type of a tensor's values comes to matter: its shape is one of rows
/// and columns, and the values can be counted.
pub open spec fn reads_type(tensor: &Tensor) -> bool {
    tensor.shape@.len() == 2 && value_count(tensor.shape@) <= usize::MAX
}

/// Whether `list` holds the values of `tensor`, a list for each row, with no
/// nulls. Rows without columns leave no lists.
pub open spec fn holds_tensor(list: FixedSizeListArray, tensor: &Tensor) -> bool {
    &&& list_width(list) == tensor.shape@[1]
    &&& list_rows(list) == all_valid(
        if tensor.shape@[1] == 0 {
            0
        } else {
            tensor.shape@[0] as nat
        },
    )
    &&& list_type(list) == tensor.data_type.element().label()
    &&& list_valid(list) == all_valid(value_count(tensor.shape@))
    &&& list_bytes(list) == tensor.data@
}

/// Whether `r` is what decoding `tensor` gives: the lists of its rows, or an error
/// where its shape and bytes do not fit together or where its columns are more
/// than a list can have.
pub open spec fn is_decoded(tensor: &Tensor, r: Result<FixedSizeListArray, Error>) -> bool {
    if !is_well_shaped(tensor) {
        r matches Err(e) && is_shape_error(tensor, e)
    } else if tensor.shape@[1] > i32::MAX {
        r matches Err(e) && e is Arrow
    } else {
        r matches Ok(list) && holds_tensor(list, tensor)
    }
}

/// Whether `r` is what encoding `list` gives: its values as a tensor of as many
/// rows and columns, both as 32-bit numbers, or an error where a tensor cannot
/// hold its values. Nulls are not recorded.
pub open spec fn is_encoded(list: FixedSizeListArray, r: Result<Tensor, Error>) -> bool {
    if is_numeric(list_type(list)) {
        r matches Ok(tensor) && {
            &&& tensor.data_type != TensorDataType::Bfloat16
            &&& tensor.data_type.element() == element_named(list_type(list))
            &&& tensor.shape@ == seq![list_rows(list).len() as u32, list_width(list) as u32]
            &&& tensor.data@ == list_bytes(list)
            &&& holds_values(
                tensor.data@.len() as int,
                list_valid(list).len() as int,
                tensor.data_type.element().width() as int,
            )
            &&& holds_values(
                tensor.data@.len() as int,
                list_rows(list).len() * list_width(list),
                tensor.data_type.element().width() as int,
            )
            &&& list_width(list) <= i32::MAX
        }
    } else {
        r matches Err(e) && e is Index && e.text() == unsupported_type(list_type(list))
    }
}

impl Tensor {
    /// The vectors in `list` as a tensor.
    pub fn from_list(list: &FixedSizeListArray) -> (r: Result<Tensor, Error>)
        ensures
            is_encoded(*list, r),
    {
        let label = value_type_of(list);
        let data_type = match TensorDataType::of_values(label.as_str()) {
            Err(e) => {
                return Err(e);
            },
            Ok(data_type) => data_type,
        };
        let rows: usize = row_count(list);
        let width: i32 = width_of(list);
        let mut shape: Vec<u32> = Vec::new();
        shape.push(rows as u32);
        shape.push(width as u32);
        let data = value_bytes(list);
        assert(shape@ =~= seq![list_rows(*list).len() as u32, list_width(*list) as u32]);
        Ok(Tensor { data_type, shape, data })
    }

    /// Refuses a tensor whose shape and bytes do not fit together, and counts the
    /// values of one where they do.
    fn checked_count(&self) -> (r: Result<usize, Error>)
        requires
            reads_type(self) ==> self.data_type != TensorDataType::Bfloat16,
        ensures
            r is Ok <==> is_well_shaped(self),
            r matches Ok(n) ==> n == value_count(self.shape@),
            r matches Err(e) ==> is_shape_error(self, e),
    {
        if self.shape.len() != 2 {
            let mut message = String::from_str("only accept 2-D tensor shape, got: ");
            append_list(&mut message, &self.shape);
            return Err(Error::Index { message });
        }
        let dim: usize = self.shape[1] as usize;
        let num_rows: usize = self.shape[0] as usize;
        proof {
            assert(dim * num_rows == num_rows * dim) by (nonlinear_arith);
        }
        let num_values: usize = match dim.checked_mul(num_rows) {
            None => {
                let mut message = String::from_str("Tensor shape ");
                append_list(&mut message, &self.shape);
                message.append(" exceeds the supported size");
                return Err(Error::Index { message });
            },
            Some(num_values) => num_values,
        };
        let element = self.data_type.element_type();
        let expected: usize = match num_values.checked_mul(element.byte_width()) {
            None => {
                assert(self.data.len() == self.data@.len());
                let mut message = String::from_str("Tensor shape ");
                append_list(&mut message, &self.shape);
                message.append(" exceeds the supported byte length");
                return Err(Error::Index { message });
            },
            Some(expected) => expected,
        };
        if self.data.len() != expected {
            let mut message = String::from_str("Tensor shape ");
            append_list(&mut message, &self.shape);
            message.append(" with data type ");
            message.append(element.name());
            message.append(" requires ");
            append_decimal(&mut message, expected as u64);
            message.append(" bytes, got ");
            append_decimal(&mut message, self.data.len() as u64);
            return Err(Error::Index { message });
        }
        Ok(num_values)
    }

    /// The vectors that a tensor holds.
    pub fn to_list(&self) -> (r: Result<FixedSizeListArray, Error>)
        requires
            reads_type(self) ==> self.data_type != TensorDataType::Bfloat16,
        ensures
            is_decoded(self, r),
    {
        let num_values: usize = match self.checked_count() {
            Err(e) => {
                return Err(e);
            },
            Ok(num_values) => num_values,
        };
        let element = self.data_type.element_type();
        let values = match numbers(element, num_values, &self.data) {
            Err(error) => {
                return Err(Error::Arrow { message: error_text(&error) });
            },
            Ok(values) => values,
        };
        let dim: u32 = self.shape[1];
        proof {
            element.lemma_named();
            lemma_signed(dim);
            lemma_rows(self.shape@[0] as nat, dim as nat);
        }
        match lists_of(values, dim as i32) {
            Err(error) => Err(Error::Arrow { message: error_text(&error) }),
            Ok(list) => Ok(list),
        }
    }
}

/// A 32-bit number is negative as a signed one where it is more than the largest
/// of those.
proof fn lemma_signed(n: u32)
    ensures
        n <= i32::MAX ==> n as i32 == n,
        n > i32::MAX ==> (n as i32) < 0,
{
    assert(n > 0x7fff_ffffu32 ==> (n as i32) < 0) by (bit_vector);
}

/// Rows of `dim` values make as many lists, but for rows of none.
proof fn lemma_rows(rows: nat, dim: nat)
    ensures
        makes_lists(rows * dim, dim as int),
        dim > 0 ==> rows_of(rows * dim, dim as int) == rows,
        dim == 0 ==> rows_of(rows * dim, dim as int) == 0,
{
    if dim > 0 {
        vstd::arithmetic::div_mod::lemma_div_multiples_vanish(rows as int, dim as int);
        vstd::arithmetic::div_mod::lemma_mod_multiples_basic(rows as int, dim as int);
    }
    assert(rows * dim == dim * rows) by (nonlinear_arith);
    assert(dim == 0 ==> rows * dim == 0) by (nonlinear_arith);
}

/// Decoding what was encoded gives back an array of the same vectors. It holds of
/// vectors without nulls, which a tensor does not record; with at least one value
/// each, or of none; of as many as 32 bits count; and where no bytes are left over
/// after those of the values.
pub proof fn lemma_decodes_what_was_encoded(
    list: FixedSizeListArray,
    tensor: Tensor,
    r: Result<FixedSizeListArray, Error>,
)
    requires
        is_encoded(list, Ok(tensor)),
        is_decoded(&tensor, r),
        list_rows(list) == all_valid(list_rows(list).len()),
        list_valid(list) == all_valid(list_valid(list).len()),
        list_width(list) >= 1 || (list_width(list) == 0 && list_rows(list).len() == 0),
        list_rows(list).len() <= u32::MAX,
        list_bytes(list).len() % element_named(list_type(list)).width() == 0,
    ensures
        r matches Ok(decoded) && {
            &&& list_rows(decoded) == list_rows(list)
            &&& list_width(decoded) == list_width(list)
            &&& list_type(decoded) == list_type(list)
            &&& list_valid(decoded) == list_valid(list)
            &&& list_bytes(decoded) == list_bytes(list)
        },
{
    let (rows, columns) = (list_rows(list).len() as int, list_width(list));
    let width = tensor.data_type.element().width() as int;
    let values = list_valid(list).len() as int;
    assert(tensor.shape@[0] == rows);
    assert(tensor.shape@[1] == columns);
    assert(tensor.data.len() == tensor.data@.len());
    let len = tensor.data@.len() as int;
    assert(values == rows * columns && values * width == len && values <= len) by (
    nonlinear_arith)
        requires
            values * width <= len < values * width + width,
            rows * columns * width <= len < rows * columns * width + width,
            len % width == 0,
            width >= 1,
            values >= 0,
    {
        assert(len == (len / width) * width + len % width);
        assert(values == len / width);
        assert(rows * columns == len / width);
    }
}

/// Encoding what was decoded gives back the tensor, but for one of rows without
/// columns, of which no rows are left.
pub proof fn lemma_encodes_what_was_decoded(
    tensor: Tensor,
    list: FixedSizeListArray,
    r: Result<Tensor, Error>,
)
    requires
        tensor.data_type != TensorDataType::Bfloat16,
        is_decoded(&tensor, Ok(list)),
        is_encoded(list, r),
        tensor.shape@[1] > 0 || tensor.shape@[0] == 0,
    ensures
        r matches Ok(encoded) && {
            &&& encoded.data_type == tensor.data_type
            &&& encoded.shape@ == tensor.shape@
            &&& encoded.data@ == tensor.data@
        },
{
    tensor.data_type.element().lemma_named();
    let encoded = r->Ok_0;
    assert(encoded.shape@ =~= tensor.shape@);
}

/// The values of an array have the tensor type of their own name, and only values of
/// the seven types that have one can be in a tensor.
pub proof fn lemma_tensor_type_by_name(label: &str, r: Result<TensorDataType, Error>)
    requires
        call_ensures(TensorDataType::of_values, (label,), r),
    ensures
        r == Ok::<TensorDataType, Error>(TensorDataType::Uint8) <==> label@ == "UInt8"@,
        r == Ok::<TensorDataType, Error>(TensorDataType::Uint16) <==> label@ == "UInt16"@,
        r == Ok::<TensorDataType, Error>(TensorDataType::Uint32) <==> label@ == "UInt32"@,
        r == Ok::<TensorDataType, Error>(TensorDataType::Uint64) <==> label@ == "UInt64"@,
        r == Ok::<TensorDataType, Error>(TensorDataType::Float16) <==> label@ == "Float16"@,
        r == Ok::<TensorDataType, Error>(TensorDataType::Float32) <==> label@ == "Float32"@,
        r == Ok::<TensorDataType, Error>(TensorDataType::Float64) <==> label@ == "Float64"@,
        !(r matches Ok(TensorDataType::Bfloat16)),
{
    lemma_names(label@);
}

proof fn lemma_names(label: Seq<char>)
    ensures
        element_named(label) == ElementType::UInt8 <==> label == "UInt8"@,
        element_named(label) == ElementType::UInt16 <==> label == "UInt16"@,
        element_named(label) == ElementType::UInt32 <==> label == "UInt32"@,
        element_named(label) == ElementType::UInt64 <==> label == "UInt64"@,
        element_named(label) == ElementType::Float16 <==> label == "Float16"@,
        element_named(label) == ElementType::Float32 <==> label == "Float32"@,
        element_named(label) == ElementType::Float64 <==> label == "Float64"@,
{
    ElementType::UInt8.lemma_named();
    ElementType::UInt16.lemma_named();
    ElementType::UInt32.lemma_named();
    ElementType::UInt64.lemma_named();
    ElementType::Float16.lemma_named();
    ElementType::Float32.lemma_named();
    ElementType::Float64.lemma_named();
}

/// The name of the values that a tensor type is of.
pub open spec fn name_of(data_type: TensorDataType) -> Seq<char> {
    match data_type {
        TensorDataType::Uint8 => "UInt8"@,
        TensorDataType::Uint16 => "UInt16"@,
        TensorDataType::Uint32 => "UInt32"@,
        TensorDataType::Uint64 => "UInt64"@,
        TensorDataType::Float16 => "Float16"@,
        TensorDataType::Float32 => "Float32"@,
        TensorDataType::Float64 => "Float64"@,
        TensorDataType::Bfloat16 => "BFloat16"@,
    }
}

/// How many bytes a value of a tensor type takes.
pub open spec fn bytes_of(data_type: TensorDataType) -> nat {
    match data_type {
        TensorDataType::Uint8 => 1,
        TensorDataType::Uint16 | TensorDataType::Float16 | TensorDataType::Bfloat16 => 2,
        TensorDataType::Uint32 | TensorDataType::Float32 => 4,
        TensorDataType::Uint64 | TensorDataType::Float64 => 8,
    }
}

/// An array whose values a tensor can hold is one of as many rows as it has lists and
/// as many columns as each has values, with the bytes and the type of its values.
pub proof fn lemma_tensor_of_lists(list: &FixedSizeListArray, r: Result<Tensor, Error>)
    requires
        call_ensures(Tensor::from_list, (list,), r),
    ensures
        r is Ok <==> exists|data_type: TensorDataType|
            !(data_type is Bfloat16) && #[trigger] name_of(data_type) == list_type(*list),
        r matches Ok(tensor) ==> {
            &&& name_of(tensor.data_type) == list_type(*list)
            &&& tensor.shape@.len() == 2
            &&& list_rows(*list).len() <= u32::MAX ==> tensor.shape@[0] == list_rows(*list).len()
            &&& list_width(*list) >= 0 ==> tensor.shape@[1] == list_width(*list)
            &&& tensor.data@ == list_bytes(*list)
        },
        r matches Err(e) ==> e is Index && e.text() == "pb tensor type not supported: "@
            + list_type(*list),
{
    let label = list_type(*list);
    lemma_names(label);
    if exists|data_type: TensorDataType|
        !(data_type is Bfloat16) && #[trigger] name_of(data_type) == label {
        let data_type = choose|data_type: TensorDataType|
            !(data_type is Bfloat16) && #[trigger] name_of(data_type) == label;
        assert(is_numeric(label));
    }
    if r is Ok {
        assert(name_of(r->Ok_0.data_type) == label);
    }
}

/// A tensor of rows and columns with the bytes of as many values is lists of its rows:
/// each as wide as there are columns, with the bytes and the type of the tensor and
/// without nulls. Any other is refused.
pub proof fn lemma_lists_of_tensor(tensor: &Tensor, r: Result<FixedSizeListArray, Error>)
    requires
        call_ensures(Tensor::to_list, (tensor,), r),
        !(tensor.data_type is Bfloat16),
    ensures
        r is Ok <==> tensor.shape@.len() == 2 && tensor.shape@[0] * tensor.shape@[1] * bytes_of(
            tensor.data_type,
        ) == tensor.data@.len() && tensor.shape@[1] <= i32::MAX,
        r matches Ok(list) ==> {
            &&& list_type(list) == name_of(tensor.data_type)
            &&& list_width(list) == tensor.shape@[1]
            &&& tensor.shape@[1] > 0 ==> list_rows(list).len() == tensor.shape@[0]
            &&& list_valid(list).len() == tensor.shape@[0] * tensor.shape@[1]
            &&& forall|row: int|
                0 <= row < list_rows(list).len() ==> #[trigger] list_rows(list)[row]
            &&& forall|at: int|
                0 <= at < list_valid(list).len() ==> #[trigger] list_valid(list)[at]
            &&& list_bytes(list) == tensor.data@
        },
        r matches Err(e) ==> e is Index || (e is Arrow && tensor.shape@[1] > i32::MAX),
{
    lemma_names(tensor.data_type.element().label());
    if tensor.shape@.len() == 2 {
        let (values, width) = (
            (tensor.shape@[0] * tensor.shape@[1]) as int,
            bytes_of(tensor.data_type) as int,
        );
        assert(tensor.data.len() == tensor.data@.len());
        assert(values * width == tensor.data@.len() ==> values <= tensor.data@.len())
            by (nonlinear_arith)
            requires
                width >= 1,
                values >= 0,
        ;
        assert(values >= 0) by (nonlinear_arith)
            requires
                values == tensor.shape@[0] * tensor.shape@[1],
        ;
    }
}

/// The text of a shape of rows and columns.
pub open spec fn shape_text(rows: u32, columns: u32) -> Seq<char> {
    seq!['['] + decimal(rows as nat) + seq![',', ' '] + decimal(columns as nat) + seq![']']
}

/// A tensor that is refused is reported by what is wrong with it: a shape that is not one
/// of rows and columns; more values, or more bytes, than can be counted; or other bytes
/// than those of its values.
pub proof fn lemma_refused_tensor_is_reported(
    tensor: &Tensor,
    r: Result<FixedSizeListArray, Error>,
)
    requires
        call_ensures(Tensor::to_list, (tensor,), r),
        !(tensor.data_type is Bfloat16),
        r is Err,
        r->Err_0 is Index,
    ensures
        tensor.shape@.len() != 2 ==> r->Err_0.text() == "only accept 2-D tensor shape, got: "@
            + bracketed(tensor.shape@),
        tensor.shape@.len() == 2 ==> {
            let (rows, columns) = (tensor.shape@[0], tensor.shape@[1]);
            let bytes = rows * columns * bytes_of(tensor.data_type);
            &&& rows * columns > usize::MAX ==> r->Err_0.text() == "Tensor shape "@ + shape_text(
                rows,
                columns,
            ) + " exceeds the supported size"@
            &&& rows * columns <= usize::MAX && bytes > usize::MAX ==> r->Err_0.text()
                == "Tensor shape "@ + shape_text(rows, columns)
                + " exceeds the supported byte length"@
            &&& bytes <= usize::MAX ==> r->Err_0.text() == "Tensor shape "@ + shape_text(
                rows,
                columns,
            ) + " with data type "@ + name_of(tensor.data_type) + " requires "@ + decimal(
                bytes as nat,
            ) + " bytes, got "@ + decimal(tensor.data@.len())
        },
{
    lemma_names(tensor.data_type.element().label());
    if tensor.shape@.len() == 2 {
        let (rows, columns) = (tensor.shape@[0], tensor.shape@[1]);
        let (values, width) = ((rows * columns) as int, bytes_of(tensor.data_type) as int);
        lemma_list_text(seq![rows], seq![columns], rows);
        lemma_list_text(seq![columns], seq![rows], columns);
        lemma_list_text(tensor.shape@, tensor.shape@, rows);
        assert(tensor.shape@ =~= seq![rows] + seq![columns]);
        assert(bracketed(tensor.shape@) =~= shape_text(rows, columns));
        assert(values * width <= usize::MAX ==> values <= usize::MAX) by (nonlinear_arith)
            requires
                width >= 1,
        ;
    }
}

} // verus!
