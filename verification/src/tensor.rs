use vstd::prelude::*;

use crate::error::{AppError, Status};
use crate::json::{
    as_scalars, flat_of, json_flatten, json_to_shape, law_nested_flattens_back, law_nested_shape,
    json_eq, law_rectangular_input_writes_back, law_rectangular_round_trip, nested, numbers, product, rectangular, reshapable,
    reshape_to_nested, shape_of, Json, Scalar,
};

verus! {

/// The element type of a tensor. `Other` holds the debug name of a type the
/// service does not convert (such as `TDim`, `Blob` or a quantized type).
#[derive(Debug, PartialEq, Eq)]
pub enum DType {
    Bool,
    U8,
    U16,
    U32,
    U64,
    I8,
    I16,
    I32,
    I64,
    F16,
    F32,
    F64,
    Other(String),
}

/// The name under which the service reports an element type.
pub open spec fn dtype_label(d: DType) -> Seq<char> {
    match d {
        DType::F16 => "float16"@,
        DType::F32 => "float32"@,
        DType::F64 => "float64"@,
        DType::I8 => "int8"@,
        DType::I16 => "int16"@,
        DType::I32 => "int32"@,
        DType::I64 => "int64"@,
        DType::U8 => "uint8"@,
        DType::U16 => "uint16"@,
        DType::U32 => "uint32"@,
        DType::U64 => "uint64"@,
        DType::Bool => "bool"@,
        DType::Other(_) => "unknown"@,
    }
}

/// The debug name of an element type, as error messages quote it.
pub open spec fn dtype_debug(d: DType) -> Seq<char> {
    match d {
        DType::Bool => "Bool"@,
        DType::U8 => "U8"@,
        DType::U16 => "U16"@,
        DType::U32 => "U32"@,
        DType::U64 => "U64"@,
        DType::I8 => "I8"@,
        DType::I16 => "I16"@,
        DType::I32 => "I32"@,
        DType::I64 => "I64"@,
        DType::F16 => "F16"@,
        DType::F32 => "F32"@,
        DType::F64 => "F64"@,
        DType::Other(s) => s@,
    }
}

impl DType {
    /// A copy of this element type.
    pub fn duplicate(&self) -> (d: DType)
        ensures
            d == *self,
    {
        match self {
            DType::Bool => DType::Bool,
            DType::U8 => DType::U8,
            DType::U16 => DType::U16,
            DType::U32 => DType::U32,
            DType::U64 => DType::U64,
            DType::I8 => DType::I8,
            DType::I16 => DType::I16,
            DType::I32 => DType::I32,
            DType::I64 => DType::I64,
            DType::F16 => DType::F16,
            DType::F32 => DType::F32,
            DType::F64 => DType::F64,
            DType::Other(s) => DType::Other(s.clone()),
        }
    }

    /// The debug name of this element type (see `dtype_debug`).
    pub fn debug_name(&self) -> (s: String)
        ensures
            s@ == dtype_debug(*self),
    {
        match self {
            DType::Bool => String::from_str("Bool"),
            DType::U8 => String::from_str("U8"),
            DType::U16 => String::from_str("U16"),
            DType::U32 => String::from_str("U32"),
            DType::U64 => String::from_str("U64"),
            DType::I8 => String::from_str("I8"),
            DType::I16 => String::from_str("I16"),
            DType::I32 => String::from_str("I32"),
            DType::I64 => String::from_str("I64"),
            DType::F16 => String::from_str("F16"),
            DType::F32 => String::from_str("F32"),
            DType::F64 => String::from_str("F64"),
            DType::Other(s) => s.clone(),
        }
    }
}

/// The name under which the service reports element type `dt`.
pub fn datum_type_to_str(dt: &DType) -> (s: &'static str)
    ensures
        s@ == dtype_label(*dt),
{
    match dt {
        DType::F16 => "float16",
        DType::F32 => "float32",
        DType::F64 => "float64",
        DType::I8 => "int8",
        DType::I16 => "int16",
        DType::I32 => "int32",
        DType::I64 => "int64",
        DType::U8 => "uint8",
        DType::U16 => "uint16",
        DType::U32 => "uint32",
        DType::U64 => "uint64",
        DType::Bool => "bool",
        DType::Other(_) => "unknown",
    }
}

/// The shape the service reports for a tensor fact: its dimensions as
/// signed 64-bit numbers when they are all known, else no dimensions.
pub fn fact_shape(dims: Option<Vec<usize>>) -> (r: Vec<i64>)
    ensures
        dims matches Some(d) ==> r@.len() == d@.len() && forall|i: int|
            0 <= i < d@.len() ==> r@[i] == d@[i] as i64,
        dims is None ==> r@.len() == 0,
{
    match dims {
        Some(d) => {
            let mut r: Vec<i64> = Vec::new();
            for i in 0..d.len()
                invariant
                    r@.len() == i,
                    forall|j: int| 0 <= j < i ==> r@[j] == d@[j] as i64,
            {
                r.push(d[i] as i64);
            }
            r
        },
        None => Vec::new(),
    }
}

/// Element types accepted for a scalar (zero-dimensional) input.
pub open spec fn scalar_input_supported(d: DType) -> bool {
    match d {
        DType::F32 | DType::F64 | DType::I32 | DType::I64 | DType::U8 | DType::I8 => true,
        _ => false,
    }
}

/// Element types accepted for an array input, and converted for an output.
pub open spec fn array_supported(d: DType) -> bool {
    match d {
        DType::F32 | DType::F64 | DType::I8 | DType::I16 | DType::I32 | DType::I64 | DType::U8
        | DType::U16 | DType::U32 | DType::U64 => true,
        _ => false,
    }
}

/// Whether element type `d` is accepted for an array input and converted
/// for an output.
pub fn is_array_supported(d: &DType) -> (r: bool)
    ensures
        r == array_supported(*d),
{
    match d {
        DType::F32 | DType::F64 | DType::I8 | DType::I16 | DType::I32 | DType::I64 | DType::U8
        | DType::U16 | DType::U32 | DType::U64 => true,
        _ => false,
    }
}

/// The product of the nonzero dimensions of `s`.
pub open spec fn nonzero_product(s: Seq<usize>) -> nat
    decreases s.len(),
{
    if s.len() == 0 {
        1
    } else {
        nonzero_product(s.drop_last()) * (if s.last() == 0 {
            1
        } else {
            s.last() as nat
        })
    }
}

/// Whether `len` elements fill an array of shape `shape`: the nonzero
/// dimensions multiply to at most `isize::MAX`, and all dimensions to
/// exactly `len`.
pub open spec fn shape_holds(shape: Seq<usize>, len: nat) -> bool {
    nonzero_product(shape) <= isize::MAX && product(shape) == len
}

/// The text of the error `ndarray` gives when `len` elements do not fill an
/// array of shape `shape`: an overflow when the nonzero dimensions multiply
/// past `isize::MAX`, out of bounds when the shape holds more elements than
/// given, incompatible shapes when it holds fewer.
pub open spec fn shape_error_text(shape: Seq<usize>, len: nat) -> Seq<char> {
    if nonzero_product(shape) > isize::MAX {
        "ShapeError/Overflow: arithmetic overflow"@
    } else if product(shape) > len {
        "ShapeError/OutOfBounds: out of bounds indexing"@
    } else {
        "ShapeError/IncompatibleShape: incompatible shapes"@
    }
}

/// `ndarray::ArrayD::from_shape_vec` with the default (row-major) layout,
/// asked whether `len` elements fill an array of shape `shape` (the elements
/// are of size zero, so only the shape and the count matter). Its source
/// accepts exactly when the product of the nonzero dimensions is at most
/// `isize::MAX` and the product of all dimensions is `len`, and otherwise
/// fails with the text `shape_error_text` gives for the first check that
/// fails (the `Display` of its `ShapeError`).
#[verifier::external_body]
fn check_shape(shape: &Vec<usize>, len: usize) -> (r: Result<(), String>)
    ensures
        r is Ok <==> shape_holds(shape@, len as nat),
        r matches Err(t) ==> t@ == shape_error_text(shape@, len as nat),
{
    ndarray::ArrayD::<()>::from_shape_vec(ndarray::IxDyn(shape), vec![(); len])
        .map(|_| ())
        .map_err(|e| e.to_string())
}

/// The contents of an input tensor read from JSON, before its elements are
/// converted to the element type: a single element, or a shape and the
/// elements in row-major order.
#[derive(Debug, PartialEq)]
pub enum TensorData<N> {
    Scalar { dtype: DType, value: Scalar<N> },
    Array { dtype: DType, shape: Vec<usize>, values: Vec<Scalar<N>> },
}

/// `t` is the tensor that JSON value `data` stands for, of element type `d`.
pub open spec fn tensor_of<N>(t: TensorData<N>, data: Json<N>, d: DType) -> bool {
    match t {
        TensorData::Scalar { dtype, value } => {
            &&& shape_of(data).len() == 0
            &&& dtype == d
            &&& value == flat_of(data)[0]
        },
        TensorData::Array { dtype, shape, values } => {
            &&& shape_of(data).len() > 0
            &&& dtype == d
            &&& shape@ == shape_of(data)
            &&& values@ == flat_of(data)
        },
    }
}

/// Whether JSON input `data` can be read as a tensor of element type `d`:
/// a scalar of a scalar type, or an array of an array type whose elements
/// fill its shape.
pub open spec fn tensor_readable<N>(data: Json<N>, d: DType) -> bool {
    if shape_of(data).len() == 0 {
        scalar_input_supported(d)
    } else {
        array_supported(d) && shape_holds(shape_of(data), flat_of(data).len())
    }
}

/// The detail of the error for an input that cannot be read as a tensor of
/// element type `d`: its element type is not handled, or its elements do
/// not fill its shape.
pub open spec fn tensor_error_detail<N>(data: Json<N>, d: DType) -> Seq<char> {
    if shape_of(data).len() == 0 {
        "Unsupported dtype: "@ + dtype_debug(d)
    } else if !array_supported(d) {
        "Unsupported input dtype: "@ + dtype_debug(d)
    } else {
        "Shape error: "@ + shape_error_text(shape_of(data), flat_of(data).len())
    }
}

/// A value that is not an array flattens to exactly one element.
proof fn lemma_scalar_flat<N>(data: Json<N>)
    requires
        shape_of(data).len() == 0,
    ensures
        flat_of(data).len() == 1,
{
}

/// Reads JSON input `data` as a tensor of element type `target`: a value
/// that is not an array is a scalar, an array gives the shape along its
/// first elements and its flattened elements. Fails with `400` when the
/// element type is not handled for that kind of input, or when the elements
/// of an array do not fill its shape (a ragged array).
pub fn json_to_tensor<N: Copy>(data: &Json<N>, target: &DType) -> (r: Result<
    TensorData<N>,
    AppError,
>)
    ensures
        r is Ok <==> tensor_readable(*data, *target),
        r matches Ok(t) ==> tensor_of(t, *data, *target),
        r matches Err(e) ==> e.status == Status::BadRequest && e.detail@ == tensor_error_detail(
            *data,
            *target,
        ),
{
    let shape = json_to_shape(data);
    let mut flat = json_flatten(data);
    if shape.len() == 0 {
        proof {
            lemma_scalar_flat(*data);
        }
        let supported = match target {
            DType::F32 | DType::F64 | DType::I32 | DType::I64 | DType::U8 | DType::I8 => true,
            _ => false,
        };
        if supported {
            let value = flat.remove(0);
            return Ok(TensorData::Scalar { dtype: target.duplicate(), value });
        } else {
            let mut detail = String::from_str("Unsupported dtype: ");
            let name = target.debug_name();
            detail.append(name.as_str());
            return Err(AppError::bad_request(detail));
        }
    }
    if !is_array_supported(target) {
        let mut detail = String::from_str("Unsupported input dtype: ");
        let name = target.debug_name();
        detail.append(name.as_str());
        return Err(AppError::bad_request(detail));
    }
    match check_shape(&shape, flat.len()) {
        Ok(()) => Ok(TensorData::Array { dtype: target.duplicate(), shape, values: flat }),
        Err(text) => {
            let mut detail = String::from_str("Shape error: ");
            detail.append(text.as_str());
            Err(AppError::bad_request(detail))
        },
    }
}

/// Turns the elements of an output tensor into nested JSON arrays along its
/// shape. Fails with `500` for an element type that is not converted.
pub fn tensor_to_json<N>(dtype: &DType, flat: Vec<N>, shape: &Vec<usize>) -> (r: Result<
    Json<N>,
    AppError,
>)
    requires
        array_supported(*dtype) ==> reshapable(shape@),
    ensures
        r is Ok <==> array_supported(*dtype),
        r matches Ok(j) ==> nested(j, flat@, shape@),
        r matches Err(e) ==> e.status == Status::Internal && e.detail@ == "Unsupported output dtype: "@
            + dtype_debug(*dtype),
{
    if is_array_supported(dtype) {
        Ok(reshape_to_nested(flat, shape))
    } else {
        let mut detail = String::from_str("Unsupported output dtype: ");
        let name = dtype.debug_name();
        detail.append(name.as_str());
        Err(AppError::internal(detail))
    }
}


/// Feeding an answer back as input: when the nested arrays written for an
/// output tensor (`tensor_to_json`) are read as an input tensor
/// (`json_to_tensor`), the result is an array tensor with the same
/// elements in the same order, and, for a tensor of at least one dimension
/// with no empty dimension, the same shape.
pub proof fn law_output_reads_back<N>(
    t: TensorData<N>,
    j: Json<N>,
    d: DType,
    flat: Seq<N>,
    shape: Seq<usize>,
)
    requires
        nested(j, flat, shape),
        tensor_of(t, j, d),
    ensures
        t matches TensorData::Array { values, shape: s2, .. } && values@ == as_scalars(flat) && (
        shape.len() >= 1 && (forall|i: int| 0 <= i < shape.len() ==> shape[i] > 0) && flat.len()
            == product(shape) ==> s2@ == shape),
{
    law_nested_flattens_back(j, flat, shape);
    if shape.len() >= 1 && (forall|i: int| 0 <= i < shape.len() ==> shape[i] > 0) && flat.len()
        == product(shape) {
        law_nested_shape(j, flat, shape);
    }
    assert(j is Array);
}


/// With no empty dimension, every dimension counts in the nonzero product.
proof fn lemma_nonzero_product(s: Seq<usize>)
    requires
        forall|i: int| 0 <= i < s.len() ==> s[i] > 0,
    ensures
        nonzero_product(s) == product(s),
    decreases s.len(),
{
    if s.len() > 0 {
        lemma_nonzero_product(s.drop_last());
    }
}

/// Feeding an input back as output: a rectangular array of numbers with no
/// empty dimension (and fewer than `isize::MAX` numbers), read as an input
/// of an array element type, is accepted as a tensor of exactly its shape
/// and numbers; and whatever `tensor_to_json` writes for those numbers and
/// that shape (a value satisfying `nested` for them) is the same value as
/// the input array.
pub proof fn law_input_round_trip<N>(t: TensorData<N>, v: Json<N>, d: DType, shape: Seq<usize>)
    requires
        rectangular(v, shape),
        forall|i: int| 0 <= i < shape.len() ==> shape[i] > 0,
        product(shape) <= isize::MAX,
        array_supported(d),
        tensor_of(t, v, d),
    ensures
        tensor_readable(v, d),
        t matches TensorData::Array { shape: s2, values, .. } && s2@ == shape && values@
            == as_scalars(numbers(v)),
        nested(v, numbers(v), shape),
        forall|j: Json<N>| #[trigger] nested(j, numbers(v), shape) ==> json_eq(j, v),
{
    law_rectangular_input_writes_back(v, shape);
    lemma_nonzero_product(shape);
    assert forall|j: Json<N>| #[trigger] nested(j, numbers(v), shape) implies json_eq(j, v) by {
        law_rectangular_round_trip(v, shape, j);
    }
}

/// The element types of array inputs and of converted outputs are exactly
/// the ten numeric types `float32`, `float64`, `int8`, `int16`, `int32`,
/// `int64`, `uint8`, `uint16`, `uint32` and `uint64`: `tensor_to_json`
/// succeeds for these and for no other.
pub proof fn law_output_element_types(d: DType)
    ensures
        array_supported(d) <==> (d == DType::F32 || d == DType::F64 || d == DType::I8 || d
            == DType::I16 || d == DType::I32 || d == DType::I64 || d == DType::U8 || d == DType::U16
            || d == DType::U32 || d == DType::U64),
{
}

/// A rectangular array of numbers with no empty dimension (and at most
/// `isize::MAX` numbers) is read by `json_to_tensor` exactly for the ten
/// numeric element types `float32`, `float64`, `int8`, `int16`, `int32`,
/// `int64`, `uint8`, `uint16`, `uint32` and `uint64`, and refused for
/// `bool`, `float16` and every other type.
pub proof fn law_array_input_element_types<N>(v: Json<N>, shape: Seq<usize>, d: DType)
    requires
        rectangular(v, shape),
        forall|i: int| 0 <= i < shape.len() ==> shape[i] > 0,
        product(shape) <= isize::MAX,
    ensures
        tensor_readable(v, d) <==> (d == DType::F32 || d == DType::F64 || d == DType::I8 || d
            == DType::I16 || d == DType::I32 || d == DType::I64 || d == DType::U8 || d == DType::U16
            || d == DType::U32 || d == DType::U64),
{
    law_rectangular_input_writes_back(v, shape);
    lemma_nonzero_product(shape);
    assert(v is Array);
    assert(shape_of(v).len() > 0);
    assert(flat_of(v).len() == numbers(v).len());
}

/// A value that is not an array (a number, a boolean, `null`, a string or
/// an object) is read by `json_to_tensor` exactly for the six scalar
/// element types `float32`, `float64`, `int32`, `int64`, `uint8` and
/// `int8`, and refused for `int16`, `uint16`, `uint32`, `uint64`, `bool`,
/// `float16` and every other type.
pub proof fn law_scalar_input_element_types<N>(x: Json<N>, d: DType)
    requires
        !(x is Array),
    ensures
        tensor_readable(x, d) <==> (d == DType::F32 || d == DType::F64 || d == DType::I32 || d
            == DType::I64 || d == DType::U8 || d == DType::I8),
{
}

} // verus!
