use tflite_server::error::Status;
use tflite_server::invoke::{describe_io, describe_output, normalize_inputs, prepare_inputs, InvokeInput};
use tflite_server::json::{json_flatten, json_to_shape, reshape_to_nested, Json, Scalar};
use tflite_server::tensor::{datum_type_to_str, fact_shape, json_to_tensor, tensor_to_json, DType, TensorData};

fn n(x: f64) -> Json<f64> {
    Json::Number(x)
}

fn arr(v: Vec<Json<f64>>) -> Json<f64> {
    Json::Array(v)
}

#[test]
fn shape_follows_first_elements() {
    let j = arr(vec![arr(vec![n(1.0), n(2.0)]), arr(vec![n(3.0), n(4.0)])]);
    assert_eq!(json_to_shape(&j), vec![2, 2]);
    assert_eq!(json_to_shape(&n(5.0)), Vec::<usize>::new());
    assert_eq!(json_to_shape(&arr(vec![])), vec![0]);
    // ragged input: only the first element is followed
    let ragged = arr(vec![arr(vec![n(1.0)]), arr(vec![n(2.0), n(3.0), n(4.0)])]);
    assert_eq!(json_to_shape(&ragged), vec![2, 1]);
    assert_eq!(json_to_shape(&arr(vec![n(1.0), arr(vec![n(2.0)])])), vec![2]);
}

#[test]
fn flatten_in_reading_order() {
    let j = arr(vec![arr(vec![n(1.0), Json::Bool(true)]), arr(vec![Json::Bool(false), Json::Null]), Json::Str(String::from("s"))]);
    assert_eq!(json_flatten(&j), vec![Scalar::Num(1.0), Scalar::One, Scalar::Zero, Scalar::Zero, Scalar::Zero]);
    assert_eq!(json_flatten(&Json::<f64>::Object(vec![])), vec![Scalar::Zero]);
    assert_eq!(json_flatten(&arr(vec![])), vec![]);
}

#[test]
fn input_tensors_from_json() {
    let j = arr(vec![arr(vec![n(1.0), n(2.0)]), arr(vec![n(3.0), n(4.0)])]);
    match json_to_tensor(&j, &DType::F32).unwrap() {
        TensorData::Array { dtype, shape, values } => {
            assert_eq!(dtype, DType::F32);
            assert_eq!(shape, vec![2, 2]);
            assert_eq!(values, vec![Scalar::Num(1.0), Scalar::Num(2.0), Scalar::Num(3.0), Scalar::Num(4.0)]);
        }
        other => panic!("{:?}", other),
    }
    assert_eq!(json_to_tensor(&n(3.0), &DType::I64).unwrap(), TensorData::Scalar { dtype: DType::I64, value: Scalar::Num(3.0) });
    assert_eq!(json_to_tensor(&Json::<f64>::Bool(true), &DType::U8).unwrap(), TensorData::Scalar { dtype: DType::U8, value: Scalar::One });
}

#[test]
fn unsupported_input_types() {
    let e = json_to_tensor(&n(1.0), &DType::U16).unwrap_err();
    assert_eq!(e.status, Status::BadRequest);
    assert_eq!(e.detail, "Unsupported dtype: U16");
    let e = json_to_tensor(&arr(vec![n(1.0)]), &DType::Bool).unwrap_err();
    assert_eq!(e.detail, "Unsupported input dtype: Bool");
    let e = json_to_tensor(&arr(vec![n(1.0)]), &DType::Other(String::from("TDim"))).unwrap_err();
    assert_eq!(e.detail, "Unsupported input dtype: TDim");
    let e = json_to_tensor(&n(1.0), &DType::F16).unwrap_err();
    assert_eq!(e.detail, "Unsupported dtype: F16");
    assert!(json_to_tensor(&arr(vec![n(1.0)]), &DType::U16).is_ok());
}

#[test]
fn nesting_along_shape() {
    let j = reshape_to_nested(vec![1, 2, 3, 4, 5, 6], &vec![2, 3]);
    assert_eq!(j, Json::Array(vec![
        Json::Array(vec![Json::Number(1), Json::Number(2), Json::Number(3)]),
        Json::Array(vec![Json::Number(4), Json::Number(5), Json::Number(6)]),
    ]));
    assert_eq!(reshape_to_nested(vec![7], &vec![]), Json::Array(vec![Json::Number(7)]));
    assert_eq!(reshape_to_nested(Vec::<i32>::new(), &vec![0]), Json::Array(vec![]));
    let deep = reshape_to_nested(vec![1, 2, 3, 4], &vec![1, 2, 2]);
    assert_eq!(deep, Json::Array(vec![Json::Array(vec![
        Json::Array(vec![Json::Number(1), Json::Number(2)]),
        Json::Array(vec![Json::Number(3), Json::Number(4)]),
    ])]));
    // an uneven tail gives a shorter last chunk
    assert_eq!(reshape_to_nested(vec![1, 2, 3], &vec![2, 2]), Json::Array(vec![
        Json::Array(vec![Json::Number(1), Json::Number(2)]),
        Json::Array(vec![Json::Number(3)]),
    ]));
}

#[test]
fn output_tensors_to_json() {
    assert_eq!(tensor_to_json(&DType::I32, vec![1, 2], &vec![2]).unwrap(), Json::Array(vec![Json::Number(1), Json::Number(2)]));
    let e = tensor_to_json(&DType::Bool, vec![1], &vec![1]).unwrap_err();
    assert_eq!(e.status, Status::Internal);
    assert_eq!(e.detail, "Unsupported output dtype: Bool");
    let e = tensor_to_json(&DType::Other(String::from("QU8(Z:0 S:0.5)")), vec![1], &vec![1]).unwrap_err();
    assert_eq!(e.detail, "Unsupported output dtype: QU8(Z:0 S:0.5)");
}

#[test]
fn type_names() {
    let cases = [
        (DType::F16, "float16"), (DType::F32, "float32"), (DType::F64, "float64"),
        (DType::I8, "int8"), (DType::I16, "int16"), (DType::I32, "int32"), (DType::I64, "int64"),
        (DType::U8, "uint8"), (DType::U16, "uint16"), (DType::U32, "uint32"), (DType::U64, "uint64"),
        (DType::Bool, "bool"), (DType::Other(String::from("Blob")), "unknown"),
    ];
    for (d, s) in cases {
        assert_eq!(datum_type_to_str(&d), s);
    }
}

#[test]
fn fact_shapes() {
    assert_eq!(fact_shape(Some(vec![1, 224, 224, 3])), vec![1, 224, 224, 3]);
    assert_eq!(fact_shape(None), Vec::<i64>::new());
    assert_eq!(fact_shape(Some(vec![usize::MAX])), vec![-1]);
}

#[test]
fn io_description() {
    let d = describe_io(7, Some(vec![1, 1000]), &DType::F32);
    assert_eq!(d.index, 7);
    assert_eq!(d.shape, vec![1, 1000]);
    assert_eq!(d.dtype, "float32");
    let d = describe_io(0, None, &DType::Other(String::from("TDim")));
    assert_eq!(d.shape, Vec::<i64>::new());
    assert_eq!(d.dtype, "unknown");
}

#[test]
fn output_description() {
    let o = describe_output(0, &DType::F32, Some(vec![1.5f64, 2.5]), vec![1, 2]);
    assert_eq!(o.index, 0);
    assert_eq!(o.data, Json::Array(vec![Json::Array(vec![Json::Number(1.5), Json::Number(2.5)])]));
    assert_eq!(o.dtype, "float32");
    assert_eq!(o.shape, vec![1, 2]);
    let o = describe_output(3, &DType::Bool, Some(vec![1.0f64]), vec![1]);
    assert_eq!(o.index, 3);
    assert_eq!(o.data, Json::Null);
    assert_eq!(o.dtype, "bool");
    let o = describe_output::<f64>(0, &DType::F32, None, vec![2]);
    assert_eq!(o.index, 0);
    assert_eq!(o.data, Json::Null);
}

fn item(index: Option<usize>, data: Json<f64>) -> InvokeInput<f64> {
    InvokeInput { index, data, dtype: None }
}

#[test]
fn request_inputs_normalized() {
    let v = normalize_inputs(Some(n(1.0)), Some(vec![item(Some(1), n(2.0))])).unwrap();
    assert_eq!(v, vec![item(Some(1), n(2.0))]);
    let v = normalize_inputs(Some(n(1.0)), None).unwrap();
    assert_eq!(v, vec![item(None, n(1.0))]);
    let e = normalize_inputs::<f64>(None, None).unwrap_err();
    assert_eq!(e.status, Status::BadRequest);
    assert_eq!(e.detail, "No input provided");
}

fn count(t: TensorData<f64>) -> Result<usize, tflite_server::error::AppError> {
    match t {
        TensorData::Scalar { .. } => Ok(1),
        TensorData::Array { values, .. } => Ok(values.len()),
    }
}

#[test]
fn inputs_assigned_to_slots() {
    let dtypes = vec![DType::F32, DType::I32];
    let items = vec![item(Some(1), arr(vec![n(1.0), n(2.0), n(3.0)])), item(Some(0), n(4.0))];
    assert_eq!(prepare_inputs(&items, &dtypes, count).unwrap(), vec![1, 3]);
    // default index is the position; a later input for the same slot wins
    let items = vec![item(None, n(1.0)), item(None, arr(vec![n(1.0)])), item(Some(1), arr(vec![n(1.0), n(2.0)]))];
    assert_eq!(prepare_inputs(&items, &dtypes, count).unwrap(), vec![1, 2]);
}

#[test]
fn input_errors_in_order() {
    let dtypes = vec![DType::F32, DType::I32];
    let e = prepare_inputs(&vec![item(Some(5), n(1.0))], &dtypes, count).unwrap_err();
    assert_eq!(e.status, Status::BadRequest);
    assert_eq!(e.detail, "Input index 5 out of range (model has 2 inputs)");
    let e = prepare_inputs(&vec![item(None, n(1.0))], &dtypes, count).unwrap_err();
    assert_eq!(e.detail, "Missing input at index 1");
    let e = prepare_inputs(&vec![item(Some(1), n(1.0)), item(Some(9), n(1.0))], &vec![DType::F32, DType::U16], count).unwrap_err();
    assert_eq!(e.detail, "Unsupported dtype: U16");
    let refuse = |_t: TensorData<f64>| -> Result<usize, tflite_server::error::AppError> {
        Err(tflite_server::error::AppError::bad_request(String::from("Shape error")))
    };
    let e = prepare_inputs(&vec![item(None, n(1.0)), item(Some(9), n(1.0))], &dtypes, refuse).unwrap_err();
    assert_eq!(e.detail, "Shape error");
    let e = prepare_inputs(&vec![], &vec![], count);
    assert_eq!(e.unwrap(), Vec::<usize>::new());
}

#[test]
fn output_json_reads_back_as_input() {
    let flat: Vec<f64> = (0..24).map(|x| x as f64).collect();
    let shape = vec![2, 3, 4];
    let j = tensor_to_json(&DType::F32, flat.clone(), &shape).unwrap();
    assert_eq!(json_to_shape(&j), shape);
    let expected: Vec<Scalar<f64>> = flat.iter().map(|&x| Scalar::Num(x)).collect();
    assert_eq!(json_flatten(&j), expected);
    match json_to_tensor(&j, &DType::F32).unwrap() {
        TensorData::Array { shape: s2, values, .. } => {
            assert_eq!(s2, shape);
            assert_eq!(values, expected);
        }
        other => panic!("{:?}", other),
    }
    // a zero-dimensional output comes back as a one-element array
    let j = tensor_to_json(&DType::I64, vec![5.0f64], &vec![]).unwrap();
    assert_eq!(json_to_shape(&j), vec![1]);
    assert_eq!(json_flatten(&j), vec![Scalar::Num(5.0)]);
}

#[test]
fn ragged_inputs_refused() {
    let ragged = arr(vec![arr(vec![n(1.0), n(2.0)]), arr(vec![n(3.0)])]);
    let e = json_to_tensor(&ragged, &DType::F32).unwrap_err();
    assert_eq!(e.status, Status::BadRequest);
    assert_eq!(e.detail, "Shape error: ShapeError/OutOfBounds: out of bounds indexing");
    let ragged = arr(vec![arr(vec![n(1.0)]), arr(vec![n(2.0), n(3.0)])]);
    let e = json_to_tensor(&ragged, &DType::I32).unwrap_err();
    assert_eq!(e.detail, "Shape error: ShapeError/IncompatibleShape: incompatible shapes");
    // the element type is judged before the shape
    let e = json_to_tensor(&ragged, &DType::Bool).unwrap_err();
    assert_eq!(e.detail, "Unsupported input dtype: Bool");
    // an empty array fills its shape [0]
    assert!(json_to_tensor(&arr(vec![]), &DType::F32).is_ok());
    // the request fails at the ragged input
    let e = prepare_inputs(&vec![item(None, ragged)], &vec![DType::F32], count).unwrap_err();
    assert_eq!(e.detail, "Shape error: ShapeError/IncompatibleShape: incompatible shapes");
}

#[test]
fn single_input_same_as_index_zero_list() {
    let dtypes = vec![DType::F32];
    let x = arr(vec![n(1.0), n(2.0)]);
    let single = normalize_inputs(Some(x), None).unwrap();
    let listed = vec![item(Some(0), arr(vec![n(1.0), n(2.0)]))];
    assert_eq!(prepare_inputs(&single, &dtypes, count), prepare_inputs(&listed, &dtypes, count));
    // an inputs list wins over input
    let both = normalize_inputs(Some(n(9.0)), Some(vec![item(Some(0), n(1.0))])).unwrap();
    assert_eq!(both, vec![item(Some(0), n(1.0))]);
}

#[test]
fn rectangular_input_round_trips() {
    let v = arr(vec![arr(vec![n(1.0), n(2.0), n(3.0)]), arr(vec![n(4.0), n(5.0), n(6.0)])]);
    match json_to_tensor(&v, &DType::I32).unwrap() {
        TensorData::Array { dtype, shape, values } => {
            let nums: Vec<f64> = values
                .iter()
                .map(|s| match s {
                    Scalar::Num(x) => *x,
                    Scalar::One => 1.0,
                    Scalar::Zero => 0.0,
                })
                .collect();
            assert_eq!(tensor_to_json(&dtype, nums, &shape).unwrap(), v);
        }
        other => panic!("{:?}", other),
    }
}
