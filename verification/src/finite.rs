//! Telling finite vectors from others.
use crate::array::{
    all_valid, boolean_valid, boolean_values, booleans, double_bits, half_bits, list_bits,
    list_rows, list_type, list_valid, list_width, row_count, row_is_valid, single_bits,
    value_count, value_is_valid, value_type_of, width_of,
};
use crate::element::{element_named, ElementType};
use crate::knn::lemma_row_fits;
use crate::single::Single;
use arrow_array::{BooleanArray, FixedSizeListArray};
use vstd::prelude::*;

verus! {

/// Whether a bit pattern is that of a finite value. One of a floating-point number
/// is where not all bits of its exponent are set, and an integer always is.
pub open spec fn is_finite_value(element: ElementType, bits: u64) -> bool {
    match element {
        ElementType::Float16 => (bits / 0x400) % 0x20 != 0x1f,
        ElementType::Float32 => (bits / 0x80_0000) % 0x100 != 0xff,
        ElementType::Float64 => (bits / 0x10_0000_0000_0000) % 0x800 != 0x7ff,
        _ => true,
    }
}

/// Whether values are those of a floating-point type.
pub open spec fn is_floating(element: ElementType) -> bool {
    element == ElementType::Float16 || element == ElementType::Float32 || element
        == ElementType::Float64
}

/// Whether the value at `at` is there and finite.
pub open spec fn is_finite_at(
    element: ElementType,
    valid: Seq<bool>,
    bits: Seq<u64>,
    at: int,
) -> bool {
    valid[at] && (is_floating(element) ==> is_finite_value(element, bits[at]))
}

/// Whether vector `row` of `width` values is there and all its values are finite.
pub open spec fn is_finite_row(
    element: ElementType,
    rows: Seq<bool>,
    width: int,
    valid: Seq<bool>,
    bits: Seq<u64>,
    row: int,
) -> bool {
    rows[row] && forall|at: int|
        row * width <= at < row * width + width ==> #[trigger] is_finite_at(
            element,
            valid,
            bits,
            at,
        )
}

/// Whether a bit pattern is that of a finite value.
pub fn value_is_finite(element: ElementType, bits: u64) -> (r: bool)
    ensures
        r == is_finite_value(element, bits),
{
    match element {
        ElementType::Float16 => (bits / 0x400) % 0x20 != 0x1f,
        ElementType::Float32 => (bits / 0x80_0000) % 0x100 != 0xff,
        ElementType::Float64 => (bits / 0x10_0000_0000_0000) % 0x800 != 0x7ff,
        _ => true,
    }
}

/// Which of some vectors are finite: those that are not null and have no value
/// that is null, infinite or NaN.
///
/// `rows` says which vectors are not null and `valid` which of their values,
/// `width` to a vector; `bits` holds the values where they are of a
/// floating-point type.
pub fn finite_rows(
    element: ElementType,
    rows: &Vec<bool>,
    width: usize,
    valid: &Vec<bool>,
    bits: &Vec<u64>,
) -> (finite: Vec<bool>)
    requires
        valid@.len() == rows@.len() * width,
        is_floating(element) ==> bits@.len() == valid@.len(),
    ensures
        finite@.len() == rows@.len(),
        forall|row: int|
            0 <= row < rows@.len() ==> #[trigger] finite@[row] == is_finite_row(
                element,
                rows@,
                width as int,
                valid@,
                bits@,
                row,
            ),
{
    let floating: bool = element == ElementType::Float16 || element == ElementType::Float32
        || element == ElementType::Float64;
    let mut finite: Vec<bool> = Vec::new();
    let mut row: usize = 0;
    while row < rows.len()
        invariant
            row <= rows@.len(),
            valid@.len() == rows@.len() * width,
            floating == is_floating(element),
            floating ==> bits@.len() == valid@.len(),
            finite@.len() == row,
            forall|r: int|
                0 <= r < row ==> #[trigger] finite@[r] == is_finite_row(
                    element,
                    rows@,
                    width as int,
                    valid@,
                    bits@,
                    r,
                ),
        decreases rows@.len() - row,
    {
        let mut all: bool = rows[row];
        proof {
            lemma_row_fits(row as int, rows@.len() as int, width as int);
            assert(valid.len() == valid@.len());
        }
        let start: usize = row * width;
        let mut column: usize = 0;
        while all && column < width
            invariant
                row < rows@.len(),
                column <= width,
                start == row * width,
                start + width <= valid@.len(),
                valid@.len() == valid.len(),
                floating == is_floating(element),
                floating ==> bits@.len() == valid@.len(),
                all ==> rows@[row as int] && forall|at: int|
                    start <= at < start + column ==> #[trigger] is_finite_at(
                        element,
                        valid@,
                        bits@,
                        at,
                    ),
                !all ==> !rows@[row as int] || exists|at: int|
                    start <= at < start + width && !#[trigger] is_finite_at(
                        element,
                        valid@,
                        bits@,
                        at,
                    ),
            decreases width - column,
        {
            let at: usize = start + column;
            if !valid[at] || (floating && !value_is_finite(element, bits[at])) {
                assert(!is_finite_at(element, valid@, bits@, at as int));
                all = false;
            }
            column += 1;
        }
        finite.push(all);
        row += 1;
    }
    finite
}

/// Of values that are not of a floating-point type the bits do not matter.
proof fn lemma_bits_unread(
    element: ElementType,
    rows: Seq<bool>,
    width: int,
    valid: Seq<bool>,
    bits: Seq<u64>,
    other: Seq<u64>,
    row: int,
)
    requires
        !is_floating(element),
        is_finite_row(element, rows, width, valid, bits, row),
    ensures
        is_finite_row(element, rows, width, valid, other, row),
{
    assert forall|at: int| row * width <= at < row * width + width implies #[trigger] is_finite_at(
        element,
        valid,
        other,
        at,
    ) by {
        assert(is_finite_at(element, valid, bits, at));
    }
}

/// Which vectors of an array are finite. Nulls, and vectors with a null among
/// their values, are not. The array has one entry for each vector, and none of them
/// is null.
pub fn is_finite(fsl: &FixedSizeListArray) -> (finite: BooleanArray)
    ensures
        boolean_values(finite).len() == list_rows(*fsl).len(),
        boolean_valid(finite) == all_valid(list_rows(*fsl).len()),
        forall|row: int|
            0 <= row < list_rows(*fsl).len() ==> #[trigger] boolean_values(finite)[row]
                == is_finite_row(
                element_named(list_type(*fsl)),
                list_rows(*fsl),
                list_width(*fsl),
                list_valid(*fsl),
                list_bits(*fsl),
                row,
            ),
{
    let label = value_type_of(fsl);
    let element = ElementType::named(label.as_str());
    let n: usize = row_count(fsl);
    let count: usize = value_count(fsl);
    let mut rows: Vec<bool> = Vec::new();
    while rows.len() < n
        invariant
            n == list_rows(*fsl).len(),
            rows@.len() <= n,
            forall|r: int| 0 <= r < rows@.len() ==> #[trigger] rows@[r] == list_rows(*fsl)[r],
        decreases n - rows@.len(),
    {
        let row: usize = rows.len();
        rows.push(row_is_valid(fsl, row));
    }
    let mut valid: Vec<bool> = Vec::new();
    while valid.len() < count
        invariant
            count == list_valid(*fsl).len(),
            valid@.len() <= count,
            forall|r: int| 0 <= r < valid@.len() ==> #[trigger] valid@[r] == list_valid(*fsl)[r],
        decreases count - valid@.len(),
    {
        let at: usize = valid.len();
        valid.push(value_is_valid(fsl, at));
    }
    assert(rows@ =~= list_rows(*fsl));
    assert(valid@ =~= list_valid(*fsl));
    if n == 0 {
        return booleans(rows);
    }
    let bits: Vec<u64> = match element {
        ElementType::Float16 => half_bits(fsl),
        ElementType::Float32 => single_bits(fsl),
        ElementType::Float64 => double_bits(fsl),
        _ => Vec::new(),
    };
    let width: i32 = width_of(fsl);
    assert(width >= 0) by (nonlinear_arith)
        requires
            0 <= n * width,
            n > 0,
    ;
    let finite = finite_rows(element, &rows, width as usize, &valid, &bits);
    assert forall|row: int| 0 <= row < n implies #[trigger] finite@[row] == is_finite_row(
        element,
        list_rows(*fsl),
        list_width(*fsl),
        list_valid(*fsl),
        list_bits(*fsl),
        row,
    ) by {
        if !is_floating(element) {
            let (a, b) = (bits@, list_bits(*fsl));
            if is_finite_row(element, rows@, width as int, valid@, a, row) {
                lemma_bits_unread(element, rows@, width as int, valid@, a, b, row);
            }
            if is_finite_row(element, rows@, width as int, valid@, b, row) {
                lemma_bits_unread(element, rows@, width as int, valid@, b, a, row);
            }
        }
    }
    booleans(finite)
}

/// A bit pattern is that of a finite value exactly where its magnitude, which is all
/// but the sign, is below that of an infinity; an integer always is finite.
pub proof fn lemma_finite_by_magnitude(element: ElementType, bits: u64, r: bool)
    requires
        call_ensures(value_is_finite, (element, bits), r),
    ensures
        element is Float16 ==> (r <==> bits % 0x8000 < 0x7c00),
        element is Float32 ==> (r <==> bits % 0x8000_0000 < 0x7f80_0000),
        element is Float32 && bits <= u32::MAX ==> (r <==> Single { bits: bits as u32 }.is_finite()),
        element is Float64 ==> (r <==> bits % 0x8000_0000_0000_0000 < 0x7ff0_0000_0000_0000),
        !(element is Float16 || element is Float32 || element is Float64) ==> r,
{
    lemma_exponent_or_magnitude(bits);
}

proof fn lemma_exponent_or_magnitude(bits: u64)
    ensures
        (bits / 0x400) % 0x20 != 0x1f <==> bits % 0x8000 < 0x7c00,
        (bits / 0x80_0000) % 0x100 != 0xff <==> bits % 0x8000_0000 < 0x7f80_0000,
        (bits / 0x10_0000_0000_0000) % 0x800 != 0x7ff <==> bits % 0x8000_0000_0000_0000
            < 0x7ff0_0000_0000_0000,
{
    assert((bits / 0x400) % 0x20 != 0x1f <==> bits % 0x8000 < 0x7c00) by (bit_vector);
    assert((bits / 0x80_0000) % 0x100 != 0xff <==> bits % 0x8000_0000 < 0x7f80_0000)
        by (bit_vector);
    assert((bits / 0x10_0000_0000_0000) % 0x800 != 0x7ff <==> bits % 0x8000_0000_0000_0000
        < 0x7ff0_0000_0000_0000) by (bit_vector);
}

/// Whether the vector at `row` is there with all its values, the magnitude of each
/// below that of an infinity of the type named `label`.
pub open spec fn is_all_below_infinity(
    label: Seq<char>,
    rows: Seq<bool>,
    width: int,
    valid: Seq<bool>,
    bits: Seq<u64>,
    row: int,
) -> bool {
    rows[row] && forall|at: int|
        row * width <= at < row * width + width ==> {
            &&& #[trigger] valid[at]
            &&& label == "Float16"@ ==> bits[at] % 0x8000 < 0x7c00
            &&& label == "Float32"@ ==> bits[at] % 0x8000_0000 < 0x7f80_0000
            &&& label == "Float64"@ ==> bits[at] % 0x8000_0000_0000_0000 < 0x7ff0_0000_0000_0000
        }
}

proof fn lemma_finite_row(
    label: Seq<char>,
    rows: Seq<bool>,
    width: int,
    valid: Seq<bool>,
    bits: Seq<u64>,
    row: int,
)
    ensures
        is_finite_row(element_named(label), rows, width, valid, bits, row)
            <==> is_all_below_infinity(label, rows, width, valid, bits, row),
{
    let element = element_named(label);
    ElementType::Float16.lemma_named();
    ElementType::Float32.lemma_named();
    ElementType::Float64.lemma_named();
    if is_finite_row(element, rows, width, valid, bits, row) {
        assert forall|at: int| row * width <= at < row * width + width implies {
            &&& #[trigger] valid[at]
            &&& label == "Float16"@ ==> bits[at] % 0x8000 < 0x7c00
            &&& label == "Float32"@ ==> bits[at] % 0x8000_0000 < 0x7f80_0000
            &&& label == "Float64"@ ==> bits[at] % 0x8000_0000_0000_0000 < 0x7ff0_0000_0000_0000
        } by {
            assert(is_finite_at(element, valid, bits, at));
            lemma_exponent_or_magnitude(bits[at]);
        }
    }
    if is_all_below_infinity(label, rows, width, valid, bits, row) {
        assert forall|at: int|
            row * width <= at < row * width + width implies #[trigger] is_finite_at(
            element,
            valid,
            bits,
            at,
        ) by {
            assert(valid[at]);
            lemma_exponent_or_magnitude(bits[at]);
        }
    }
}

/// A vector is finite exactly where it is not null, none of its values is, and the
/// magnitude of each is below that of an infinity.
pub proof fn lemma_finite_rows_by_magnitude(
    element: ElementType,
    rows: &Vec<bool>,
    width: usize,
    valid: &Vec<bool>,
    bits: &Vec<u64>,
    finite: Vec<bool>,
)
    requires
        call_ensures(finite_rows, (element, rows, width, valid, bits), finite),
    ensures
        finite@.len() == rows@.len(),
        forall|row: int|
            0 <= row < rows@.len() ==> (#[trigger] finite@[row] <==> is_all_below_infinity(
                element.label(),
                rows@,
                width as int,
                valid@,
                bits@,
                row,
            )),
{
    element.lemma_named();
    assert forall|row: int| 0 <= row < rows@.len() implies (#[trigger] finite@[row]
        <==> is_all_below_infinity(
        element.label(),
        rows@,
        width as int,
        valid@,
        bits@,
        row,
    )) by {
        lemma_finite_row(element.label(), rows@, width as int, valid@, bits@, row);
    }
}

/// The answer for an array has an entry for each of its vectors and none that is null,
/// and says of each whether it is there with all its values, the magnitude of each
/// below that of an infinity.
pub proof fn lemma_array_is_told_finite(fsl: &FixedSizeListArray, finite: BooleanArray)
    requires
        call_ensures(is_finite, (fsl,), finite),
    ensures
        boolean_values(finite).len() == list_rows(*fsl).len(),
        boolean_valid(finite).len() == list_rows(*fsl).len(),
        forall|row: int|
            0 <= row < list_rows(*fsl).len() ==> #[trigger] boolean_valid(finite)[row],
        forall|row: int|
            0 <= row < list_rows(*fsl).len() ==> (#[trigger] boolean_values(finite)[row]
                <==> is_all_below_infinity(
                list_type(*fsl),
                list_rows(*fsl),
                list_width(*fsl),
                list_valid(*fsl),
                list_bits(*fsl),
                row,
            )),
{
    assert forall|row: int| 0 <= row < list_rows(*fsl).len() implies (
    #[trigger] boolean_values(finite)[row] <==> is_all_below_infinity(
        list_type(*fsl),
        list_rows(*fsl),
        list_width(*fsl),
        list_valid(*fsl),
        list_bits(*fsl),
        row,
    )) by {
        lemma_finite_row(
            list_type(*fsl),
            list_rows(*fsl),
            list_width(*fsl),
            list_valid(*fsl),
            list_bits(*fsl),
            row,
        );
    }
}

} // verus!
