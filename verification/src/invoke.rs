use vstd::prelude::*;

use crate::error::{AppError, Status};
use crate::json::{nested, reshapable, Json};
use crate::tensor::{
    array_supported, datum_type_to_str, dtype_label, fact_shape, json_to_tensor, tensor_error_detail,
    tensor_of, tensor_readable, tensor_to_json, DType, TensorData,
};
use crate::text::{decimal, push_decimal};

verus! {

/// One input of an inference request: the model input it feeds (by
/// default, its own position), its data, and an optional element type name
/// that the service ignores.
#[derive(Debug, PartialEq)]
pub struct InvokeInput<N> {
    pub index: Option<usize>,
    pub data: Json<N>,
    pub dtype: Option<String>,
}

/// The inputs of a request: the `inputs` list when given, else the single
/// `input` value feeding model input 0; `400 No input provided` when neither
/// is given.
pub fn normalize_inputs<N>(input: Option<Json<N>>, inputs: Option<Vec<InvokeInput<N>>>) -> (r:
    Result<Vec<InvokeInput<N>>, AppError>)
    ensures
        inputs matches Some(v) ==> (r matches Ok(w) && w@ == v@),
        inputs is None && input is Some ==> (r matches Ok(w) && w@.len() == 1 && w@[0].index is None
            && w@[0].data == input->0 && w@[0].dtype is None),
        inputs is None && input is None ==> (r matches Err(e) && e.status == Status::BadRequest
            && e.detail@ == "No input provided"@),
{
    match inputs {
        Some(v) => Ok(v),
        None => match input {
            Some(x) => {
                let mut w: Vec<InvokeInput<N>> = Vec::new();
                w.push(InvokeInput { index: None, data: x, dtype: None });
                Ok(w)
            },
            None => Err(AppError::bad_request(String::from_str("No input provided"))),
        },
    }
}

/// The model input that request input `i` feeds.
pub open spec fn input_slot<N>(items: Seq<InvokeInput<N>>, i: int) -> int {
    match items[i].index {
        Some(x) => x as int,
        None => i,
    }
}

/// Request input `i` names an existing model input, and its data can be
/// read as a tensor of that input's element type.
pub open spec fn input_accepted<N>(items: Seq<InvokeInput<N>>, dtypes: Seq<DType>, i: int) -> bool {
    let s = input_slot(items, i);
    &&& 0 <= s < dtypes.len()
    &&& tensor_readable(items[i].data, dtypes[s])
}

/// `x` is a value that `build` can return for the tensor that `data` stands
/// for with element type `d`.
pub open spec fn produced<N, T, F: Fn(TensorData<N>) -> Result<T, AppError>>(
    build: F,
    data: Json<N>,
    d: DType,
    x: T,
) -> bool {
    exists|t: TensorData<N>| tensor_of(t, data, d) && #[trigger] call_ensures(build, (t,), Ok(x))
}

/// Request input `i` was accepted and its tensor built.
pub open spec fn input_built<N, T, F: Fn(TensorData<N>) -> Result<T, AppError>>(
    build: F,
    items: Seq<InvokeInput<N>>,
    dtypes: Seq<DType>,
    i: int,
) -> bool {
    &&& input_accepted(items, dtypes, i)
    &&& exists|x: T| #[trigger] produced(build, items[i].data, dtypes[input_slot(items, i)], x)
}

/// The last of the first `k` request inputs that feeds model input `j`, or
/// -1 when none does.
pub open spec fn last_input_for<N>(items: Seq<InvokeInput<N>>, j: int, k: int) -> int
    decreases k,
{
    if k <= 0 {
        -1
    } else if input_slot(items, k - 1) == j {
        k - 1
    } else {
        last_input_for(items, j, k - 1)
    }
}

/// The detail of the error for a request input naming a model input that
/// does not exist.
pub open spec fn out_of_range_detail(idx: nat, n: nat) -> Seq<char> {
    "Input index "@ + decimal(idx) + " out of range (model has "@ + decimal(n) + " inputs)"@
}

/// The detail of the error for a model input that no request input feeds.
pub open spec fn missing_input_detail(i: nat) -> Seq<char> {
    "Missing input at index "@ + decimal(i)
}

/// `e` is the error that request input `k` fails with.
pub open spec fn input_error<N, T, F: Fn(TensorData<N>) -> Result<T, AppError>>(
    build: F,
    items: Seq<InvokeInput<N>>,
    dtypes: Seq<DType>,
    k: int,
    e: AppError,
) -> bool {
    let s = input_slot(items, k);
    if !(0 <= s < dtypes.len()) {
        e.status == Status::BadRequest && e.detail@ == out_of_range_detail(s as nat, dtypes.len())
    } else if !input_accepted(items, dtypes, k) {
        e.status == Status::BadRequest && e.detail@ == tensor_error_detail(items[k].data, dtypes[s])
    } else {
        exists|t: TensorData<N>|
            tensor_of(t, items[k].data, dtypes[s]) && #[trigger] call_ensures(build, (t,), Err(e))
    }
}

/// What a successful `prepare_inputs` gives: one value per model input;
/// every request input was accepted and built; and the value of each model
/// input is one `build` returns for the last request input feeding it.
pub open spec fn prepared_ok<N, T, F: Fn(TensorData<N>) -> Result<T, AppError>>(
    build: F,
    items: Seq<InvokeInput<N>>,
    dtypes: Seq<DType>,
    v: Seq<T>,
) -> bool {
    &&& v.len() == dtypes.len()
    &&& forall|i: int| 0 <= i < items.len() ==> input_built(build, items, dtypes, i)
    &&& forall|j: int|
        0 <= j < dtypes.len() ==> #[trigger] last_input_for(items, j, items.len() as int) >= 0
    &&& forall|j: int|
        0 <= j < dtypes.len() ==> produced(
            build,
            items[last_input_for(items, j, items.len() as int)].data,
            dtypes[j],
            #[trigger] v[j],
        )
}

/// The error a failing `prepare_inputs` gives: the error of the first
/// request input that fails, after all earlier ones were built; or, when
/// all were built, `400 Missing input` for the first model input that no
/// request input feeds.
pub open spec fn prepared_err<N, T, F: Fn(TensorData<N>) -> Result<T, AppError>>(
    build: F,
    items: Seq<InvokeInput<N>>,
    dtypes: Seq<DType>,
    e: AppError,
) -> bool {
    ||| exists|k: int|
        0 <= k < items.len() && (forall|i: int| 0 <= i < k ==> input_built(build, items, dtypes, i))
            && #[trigger] input_error(build, items, dtypes, k, e)
    ||| (forall|i: int| 0 <= i < items.len() ==> input_built(build, items, dtypes, i)) && exists|
        j: int,
    |
        0 <= j < dtypes.len() && last_input_for(items, j, items.len() as int) < 0 && (forall|
            j2: int,
        |
            0 <= j2 < j ==> last_input_for(items, j2, items.len() as int) >= 0) && e.status
            == Status::BadRequest && e.detail@ == #[trigger] missing_input_detail(j as nat)
}

/// The error detail for an input index out of range.
fn out_of_range_error(idx: usize, n: usize) -> (e: AppError)
    ensures
        e.status == Status::BadRequest,
        e.detail@ == out_of_range_detail(idx as nat, n as nat),
{
    let mut d = String::from_str("Input index ");
    push_decimal(&mut d, idx as u64);
    d.append(" out of range (model has ");
    push_decimal(&mut d, n as u64);
    d.append(" inputs)");
    AppError::bad_request(d)
}

/// The error detail for a model input left without data.
fn missing_input_error(i: usize) -> (e: AppError)
    ensures
        e.status == Status::BadRequest,
        e.detail@ == missing_input_detail(i as nat),
{
    let mut d = String::from_str("Missing input at index ");
    push_decimal(&mut d, i as u64);
    AppError::bad_request(d)
}

/// Builds the ordered input tensors of a model with one input per element
/// type in `dtypes`. Request input `i` feeds model input `index` (default
/// `i`); its data is read with that input's element type and handed to
/// `build`, a later input for the same model input replacing an earlier one.
/// The first request input that names no model input, cannot be read, or
/// that `build` refuses, ends the request with its error; after all inputs,
/// the first model input left without data gives `400 Missing input`.
pub fn prepare_inputs<N: Copy, T, F: Fn(TensorData<N>) -> Result<T, AppError>>(
    items: &Vec<InvokeInput<N>>,
    dtypes: &Vec<DType>,
    build: F,
) -> (r: Result<Vec<T>, AppError>)
    requires
        forall|t: TensorData<N>| call_requires(build, (t,)),
    ensures
        r matches Ok(v) ==> prepared_ok(build, items@, dtypes@, v@),
        r matches Err(e) ==> prepared_err(build, items@, dtypes@, e),
{
    let n = dtypes.len();
    let mut slots: Vec<Option<T>> = Vec::new();
    for j in 0..n
        invariant
            slots@.len() == j,
            forall|j2: int| 0 <= j2 < j ==> slots@[j2] is None,
    {
        slots.push(None);
    }
    let ghost is = items@;
    let ghost ds = dtypes@;
    for i in 0..items.len()
        invariant
            n == ds.len(),
            is == items@,
            ds == dtypes@,
            forall|t: TensorData<N>| call_requires(build, (t,)),
            slots@.len() == n,
            forall|i2: int| 0 <= i2 < i ==> input_built(build, is, ds, i2),
            forall|j: int|
                0 <= j < n ==> (#[trigger] slots@[j] is Some <==> last_input_for(is, j, i as int)
                    >= 0),
            forall|j: int|
                0 <= j < n ==> (#[trigger] slots@[j] matches Some(x) ==> produced(
                    build,
                    is[last_input_for(is, j, i as int)].data,
                    ds[j],
                    x,
                )),
    {
        let idx = match items[i].index {
            Some(x) => x,
            None => i,
        };
        assert(idx == input_slot(is, i as int));
        if idx >= n {
            let e = out_of_range_error(idx, n);
            assert(input_error(build, is, ds, i as int, e));
            return Err(e);
        }
        let planned = json_to_tensor(&items[i].data, &dtypes[idx]);
        match planned {
            Err(e) => {
                assert(input_error(build, is, ds, i as int, e));
                return Err(e);
            },
            Ok(t) => {
                let ghost tg = t;
                let built = build(t);
                match built {
                    Err(e) => {
                        assert(input_error(build, is, ds, i as int, e));
                        return Err(e);
                    },
                    Ok(x) => {
                        proof {
                            assert(produced(build, is[i as int].data, ds[idx as int], x));
                            assert(input_built(build, is, ds, i as int));
                        }
                        slots.set(idx, Some(x));
                        assert forall|j: int|
                            0 <= j < n implies (#[trigger] slots@[j] is Some
                                <==> last_input_for(is, j, i + 1) >= 0) by {
                            if j != idx {
                                assert(last_input_for(is, j, i + 1) == last_input_for(
                                    is,
                                    j,
                                    i as int,
                                ));
                            }
                        }
                        assert forall|j: int|
                            0 <= j < n implies (#[trigger] slots@[j] matches Some(y) ==> produced(
                                build,
                                is[last_input_for(is, j, i + 1)].data,
                                ds[j],
                                y,
                            )) by {
                            if j != idx {
                                assert(last_input_for(is, j, i + 1) == last_input_for(
                                    is,
                                    j,
                                    i as int,
                                ));
                            }
                        }
                    },
                }
            },
        }
    }
    for j in 0..n
        invariant
            n == ds.len(),
            is == items@,
            ds == dtypes@,
            slots@.len() == n,
            forall|i2: int| 0 <= i2 < is.len() ==> input_built(build, is, ds, i2),
            forall|j2: int|
                0 <= j2 < n ==> (#[trigger] slots@[j2] is Some <==> last_input_for(
                    is,
                    j2,
                    is.len() as int,
                ) >= 0),
            forall|j2: int| 0 <= j2 < j ==> #[trigger] slots@[j2] is Some,
            forall|j2: int|
                0 <= j2 < n ==> (#[trigger] slots@[j2] matches Some(x) ==> produced(
                    build,
                    is[last_input_for(is, j2, is.len() as int)].data,
                    ds[j2],
                    x,
                )),
    {
        if slots[j].is_none() {
            let e = missing_input_error(j);
            assert(last_input_for(is, j as int, is.len() as int) < 0);
            assert forall|j2: int| 0 <= j2 < j implies last_input_for(is, j2, is.len() as int) >= 0 by {
                assert(slots@[j2] is Some);
            }
            let ghost jj: int = j as int;
            assert(missing_input_detail(jj as nat) == e.detail@);
            assert(0 <= jj < dtypes@.len() && last_input_for(items@, jj, items@.len() as int) < 0
                && (forall|j2: int|
                0 <= j2 < jj ==> last_input_for(items@, j2, items@.len() as int) >= 0)
                && e.status == Status::BadRequest && e.detail@ == missing_input_detail(jj as nat));
            return Err(e);
        }
    }
    let ghost ss = slots@;
    let mut out: Vec<T> = Vec::new();
    for s in it: slots.into_iter()
        invariant
            it.seq() == ss,
            ss.len() == n,
            n == ds.len(),
            is == items@,
            ds == dtypes@,
            forall|i2: int| 0 <= i2 < is.len() ==> input_built(build, is, ds, i2),
            forall|j2: int| 0 <= j2 < n ==> #[trigger] ss[j2] is Some,
            forall|j2: int|
                0 <= j2 < n ==> (#[trigger] ss[j2] matches Some(x) ==> produced(
                    build,
                    is[last_input_for(is, j2, is.len() as int)].data,
                    ds[j2],
                    x,
                )),
            out@.len() == it.index(),
            forall|j2: int| 0 <= j2 < out@.len() ==> Some(#[trigger] out@[j2]) == ss[j2],
    {
        match s {
            Some(x) => {
                out.push(x);
            },
            None => {
                assert(false);
            },
        }
    }
    assert(out@.len() == ds.len());
    assert(forall|i: int| 0 <= i < items@.len() ==> input_built(build, items@, dtypes@, i));
    assert forall|j: int| 0 <= j < dtypes@.len() implies #[trigger] last_input_for(
        items@,
        j,
        items@.len() as int,
    ) >= 0 by {
        assert(ss[j] is Some);
    }
    assert forall|j: int| 0 <= j < dtypes@.len() implies produced(
        build,
        items@[last_input_for(items@, j, items@.len() as int)].data,
        dtypes@[j],
        #[trigger] out@[j],
    ) by {
        assert(Some(out@[j]) == ss[j]);
        assert(ss[j] is Some);
    }
    Ok(out)
}


/// Input lists that agree, position by position, on the model input fed
/// and the data are judged alike: every condition in the contract of
/// `prepare_inputs` (acceptance, building, the last input for each model
/// input, and the error of each input) holds of one exactly when it holds
/// of the other.
pub proof fn law_inputs_by_slot<N, T, F: Fn(TensorData<N>) -> Result<T, AppError>>(
    build: F,
    a: Seq<InvokeInput<N>>,
    b: Seq<InvokeInput<N>>,
    dtypes: Seq<DType>,
)
    requires
        a.len() == b.len(),
        forall|i: int|
            #![trigger a[i]]
            0 <= i < a.len() ==> a[i].data == b[i].data && input_slot(a, i) == input_slot(b, i),
    ensures
        forall|i: int|
            0 <= i < a.len() ==> input_accepted(a, dtypes, i) == input_accepted(b, dtypes, i),
        forall|i: int|
            0 <= i < a.len() ==> input_built(build, a, dtypes, i) == input_built(
                build,
                b,
                dtypes,
                i,
            ),
        forall|j: int, k: int|
            0 <= k <= a.len() ==> last_input_for(a, j, k) == last_input_for(b, j, k),
        forall|k: int, e: AppError|
            0 <= k < a.len() ==> input_error(build, a, dtypes, k, e) == input_error(
                build,
                b,
                dtypes,
                k,
                e,
            ),
{
    assert forall|j: int, k: int| 0 <= k <= a.len() implies last_input_for(a, j, k)
        == last_input_for(b, j, k) by {
        lemma_last_input_for_agree(a, b, j, k);
    }
}

proof fn lemma_last_input_for_agree<N>(a: Seq<InvokeInput<N>>, b: Seq<InvokeInput<N>>, j: int, k: int)
    requires
        0 <= k <= a.len(),
        a.len() == b.len(),
        forall|i: int| 0 <= i < a.len() ==> input_slot(a, i) == input_slot(b, i),
    ensures
        last_input_for(a, j, k) == last_input_for(b, j, k),
    decreases k,
{
    if k > 0 {
        lemma_last_input_for_agree(a, b, j, k - 1);
    }
}

/// A request's single `input` is the same as an `inputs` list holding that
/// value for model input 0: both feed model input 0 with the same data, and
/// every condition in the contract of `prepare_inputs` holds of one list
/// exactly when it holds of the other.
pub proof fn law_single_input_is_index_zero<N, T, F: Fn(TensorData<N>) -> Result<T, AppError>>(
    build: F,
    x: Json<N>,
    dtypes: Seq<DType>,
)
    ensures
        ({
            let a = seq![InvokeInput { index: None, data: x, dtype: None }];
            let b = seq![InvokeInput { index: Some(0usize), data: x, dtype: None }];
            &&& input_slot(a, 0) == 0 && input_slot(b, 0) == 0
            &&& input_accepted(a, dtypes, 0) == input_accepted(b, dtypes, 0)
            &&& input_built(build, a, dtypes, 0) == input_built(build, b, dtypes, 0)
            &&& forall|j: int| last_input_for(a, j, 1) == last_input_for(b, j, 1)
            &&& forall|e: AppError|
                input_error(build, a, dtypes, 0, e) == input_error(build, b, dtypes, 0, e)
        }),
{
    let a = seq![InvokeInput { index: None, data: x, dtype: None }];
    let b = seq![InvokeInput { index: Some(0usize), data: x, dtype: None }];
    law_inputs_by_slot(build, a, b, dtypes);
}

/// Two tensors hold the same contents: the same element type and either
/// the same single element, or the same shape and elements.
pub open spec fn same_tensor<N>(t1: TensorData<N>, t2: TensorData<N>) -> bool {
    match t1 {
        TensorData::Scalar { dtype: d1, value: v1 } => match t2 {
            TensorData::Scalar { dtype: d2, value: v2 } => d1 == d2 && v1 == v2,
            _ => false,
        },
        TensorData::Array { dtype: d1, shape: s1, values: x1 } => match t2 {
            TensorData::Array { dtype: d2, shape: s2, values: x2 } => d1 == d2 && s1@ == s2@
                && x1@ == x2@,
            _ => false,
        },
    }
}

/// `build` answers tensors of the same contents alike.
pub open spec fn deterministic<N, T, F: Fn(TensorData<N>) -> Result<T, AppError>>(build: F) -> bool {
    forall|t1: TensorData<N>, t2: TensorData<N>, r1: Result<T, AppError>, r2: Result<T, AppError>|
        same_tensor(t1, t2) && #[trigger] call_ensures(build, (t1,), r1) && #[trigger] call_ensures(
            build,
            (t2,),
            r2,
        ) ==> r1 == r2
}

/// The outcome `prepare_inputs` may give for `items`, with the values of a
/// success as a sequence.
pub open spec fn prepared<N, T, F: Fn(TensorData<N>) -> Result<T, AppError>>(
    build: F,
    items: Seq<InvokeInput<N>>,
    dtypes: Seq<DType>,
    r: Result<Seq<T>, AppError>,
) -> bool {
    match r {
        Ok(v) => prepared_ok(build, items, dtypes, v),
        Err(e) => prepared_err(build, items, dtypes, e),
    }
}

/// Two outcomes are alike: the same values, or errors of the same status
/// and detail.
pub open spec fn same_outcome<T>(r1: Result<Seq<T>, AppError>, r2: Result<Seq<T>, AppError>) -> bool {
    match r1 {
        Ok(a) => r2 matches Ok(b) && a == b,
        Err(e1) => r2 matches Err(e2) && e1.status == e2.status && e1.detail@ == e2.detail@,
    }
}

proof fn lemma_tensor_of_same<N>(t1: TensorData<N>, t2: TensorData<N>, data: Json<N>, d: DType)
    requires
        tensor_of(t1, data, d),
        tensor_of(t2, data, d),
    ensures
        same_tensor(t1, t2),
{
}

/// With a deterministic `build`, an input that was built does not fail.
proof fn lemma_built_not_error<N, T, F: Fn(TensorData<N>) -> Result<T, AppError>>(
    build: F,
    items: Seq<InvokeInput<N>>,
    dtypes: Seq<DType>,
    k: int,
    e: AppError,
)
    requires
        deterministic(build),
        0 <= k < items.len(),
        input_built(build, items, dtypes, k),
    ensures
        !input_error(build, items, dtypes, k, e),
{
    let s = input_slot(items, k);
    if input_error(build, items, dtypes, k, e) {
        let x = choose|x: T| #[trigger] produced(build, items[k].data, dtypes[s], x);
        let t1 = choose|t: TensorData<N>|
            tensor_of(t, items[k].data, dtypes[s]) && #[trigger] call_ensures(build, (t,), Ok(x));
        let t2 = choose|t: TensorData<N>|
            tensor_of(t, items[k].data, dtypes[s]) && #[trigger] call_ensures(build, (t,), Err(e));
        lemma_tensor_of_same(t1, t2, items[k].data, dtypes[s]);
        assert(Ok::<T, AppError>(x) == Err::<T, AppError>(e));
    }
}

/// With a deterministic `build`, `prepare_inputs` has one outcome: any two
/// outcomes its contract allows for the same inputs are alike.
pub proof fn law_prepare_deterministic<N, T, F: Fn(TensorData<N>) -> Result<T, AppError>>(
    build: F,
    items: Seq<InvokeInput<N>>,
    dtypes: Seq<DType>,
    r1: Result<Seq<T>, AppError>,
    r2: Result<Seq<T>, AppError>,
)
    requires
        deterministic(build),
        prepared(build, items, dtypes, r1),
        prepared(build, items, dtypes, r2),
    ensures
        same_outcome(r1, r2),
{
    lemma_prepare_one_way(build, items, dtypes, r1, r2);
    lemma_prepare_one_way(build, items, dtypes, r2, r1);
}

proof fn lemma_prepare_one_way<N, T, F: Fn(TensorData<N>) -> Result<T, AppError>>(
    build: F,
    items: Seq<InvokeInput<N>>,
    dtypes: Seq<DType>,
    r1: Result<Seq<T>, AppError>,
    r2: Result<Seq<T>, AppError>,
)
    requires
        deterministic(build),
        prepared(build, items, dtypes, r1),
        prepared(build, items, dtypes, r2),
    ensures
        r1 is Ok ==> same_outcome(r1, r2),
        r1 is Err && r2 is Err ==> same_outcome(r1, r2),
{
    let n = items.len() as int;
    match r1 {
        Ok(v1) => {
            match r2 {
                Ok(v2) => {
                    assert forall|j: int| 0 <= j < v1.len() implies v1[j] == v2[j] by {
                        let k = last_input_for(items, j, n);
                        let d = items[k].data;
                        assert(produced(build, d, dtypes[j], v1[j]));
                        assert(produced(build, d, dtypes[j], v2[j]));
                        let t1 = choose|t: TensorData<N>|
                            tensor_of(t, d, dtypes[j]) && #[trigger] call_ensures(
                                build,
                                (t,),
                                Ok(v1[j]),
                            );
                        let t2 = choose|t: TensorData<N>|
                            tensor_of(t, d, dtypes[j]) && #[trigger] call_ensures(
                                build,
                                (t,),
                                Ok(v2[j]),
                            );
                        lemma_tensor_of_same(t1, t2, d, dtypes[j]);
                        assert(Ok::<T, AppError>(v1[j]) == Ok::<T, AppError>(v2[j]));
                    }
                    assert(v1 =~= v2);
                },
                Err(e2) => {
                    if exists|k: int|
                        0 <= k < n && (forall|i: int|
                            0 <= i < k ==> input_built(build, items, dtypes, i))
                            && #[trigger] input_error(build, items, dtypes, k, e2) {
                        let k = choose|k: int|
                            0 <= k < n && (forall|i: int|
                                0 <= i < k ==> input_built(build, items, dtypes, i))
                                && #[trigger] input_error(build, items, dtypes, k, e2);
                        lemma_built_not_error(build, items, dtypes, k, e2);
                    } else {
                        let j = choose|j: int|
                            0 <= j < dtypes.len() && last_input_for(items, j, n) < 0 && (forall|
                                j2: int,
                            |
                                0 <= j2 < j ==> last_input_for(items, j2, n) >= 0) && e2.status
                                == Status::BadRequest && e2.detail@ == #[trigger] missing_input_detail(
                                j as nat,
                            );
                        assert(last_input_for(items, j, n) >= 0);
                    }
                },
            }
        },
        Err(e1) => {
            if let Err(e2) = r2 {
                let first1 = exists|k: int|
                    0 <= k < n && (forall|i: int| 0 <= i < k ==> input_built(build, items, dtypes, i))
                        && #[trigger] input_error(build, items, dtypes, k, e1);
                let first2 = exists|k: int|
                    0 <= k < n && (forall|i: int| 0 <= i < k ==> input_built(build, items, dtypes, i))
                        && #[trigger] input_error(build, items, dtypes, k, e2);
                if first1 && first2 {
                    let k1 = choose|k: int|
                        0 <= k < n && (forall|i: int|
                            0 <= i < k ==> input_built(build, items, dtypes, i))
                            && #[trigger] input_error(build, items, dtypes, k, e1);
                    let k2 = choose|k: int|
                        0 <= k < n && (forall|i: int|
                            0 <= i < k ==> input_built(build, items, dtypes, i))
                            && #[trigger] input_error(build, items, dtypes, k, e2);
                    if k1 < k2 {
                        lemma_built_not_error(build, items, dtypes, k1, e1);
                    } else if k2 < k1 {
                        lemma_built_not_error(build, items, dtypes, k2, e2);
                    } else {
                        let s = input_slot(items, k1);
                        if 0 <= s < dtypes.len() && input_accepted(items, dtypes, k1) {
                            let t1 = choose|t: TensorData<N>|
                                tensor_of(t, items[k1].data, dtypes[s]) && #[trigger] call_ensures(
                                    build,
                                    (t,),
                                    Err(e1),
                                );
                            let t2 = choose|t: TensorData<N>|
                                tensor_of(t, items[k1].data, dtypes[s]) && #[trigger] call_ensures(
                                    build,
                                    (t,),
                                    Err(e2),
                                );
                            lemma_tensor_of_same(t1, t2, items[k1].data, dtypes[s]);
                            assert(Err::<T, AppError>(e1) == Err::<T, AppError>(e2));
                        }
                    }
                } else if first1 {
                    let k1 = choose|k: int|
                        0 <= k < n && (forall|i: int|
                            0 <= i < k ==> input_built(build, items, dtypes, i))
                            && #[trigger] input_error(build, items, dtypes, k, e1);
                    lemma_built_not_error(build, items, dtypes, k1, e1);
                } else if first2 {
                    let k2 = choose|k: int|
                        0 <= k < n && (forall|i: int|
                            0 <= i < k ==> input_built(build, items, dtypes, i))
                            && #[trigger] input_error(build, items, dtypes, k, e2);
                    lemma_built_not_error(build, items, dtypes, k2, e2);
                } else {
                    let j1 = choose|j: int|
                        0 <= j < dtypes.len() && last_input_for(items, j, n) < 0 && (forall|j2: int|
                            0 <= j2 < j ==> last_input_for(items, j2, n) >= 0) && e1.status
                            == Status::BadRequest && e1.detail@ == #[trigger] missing_input_detail(
                            j as nat,
                        );
                    let j2 = choose|j: int|
                        0 <= j < dtypes.len() && last_input_for(items, j, n) < 0 && (forall|j3: int|
                            0 <= j3 < j ==> last_input_for(items, j3, n) >= 0) && e2.status
                            == Status::BadRequest && e2.detail@ == #[trigger] missing_input_detail(
                            j as nat,
                        );
                    if j1 < j2 {
                        assert(last_input_for(items, j1, n) >= 0);
                    } else if j2 < j1 {
                        assert(last_input_for(items, j2, n) >= 0);
                    }
                }
            }
        },
    }
}

proof fn lemma_last_input_range<N>(items: Seq<InvokeInput<N>>, j: int, k: int)
    ensures
        -1 <= last_input_for(items, j, k) < if k > 0 { k } else { 0 },
    decreases k,
{
    if k > 0 {
        lemma_last_input_range(items, j, k - 1);
    }
}

/// An outcome allowed for one input list is allowed for another that
/// agrees with it, position by position, on the model input fed and the
/// data.
proof fn lemma_prepared_transfer<N, T, F: Fn(TensorData<N>) -> Result<T, AppError>>(
    build: F,
    a: Seq<InvokeInput<N>>,
    b: Seq<InvokeInput<N>>,
    dtypes: Seq<DType>,
    r: Result<Seq<T>, AppError>,
)
    requires
        a.len() == b.len(),
        forall|i: int|
            #![trigger a[i]]
            0 <= i < a.len() ==> a[i].data == b[i].data && input_slot(a, i) == input_slot(b, i),
        prepared(build, a, dtypes, r),
    ensures
        prepared(build, b, dtypes, r),
{
    law_inputs_by_slot(build, a, b, dtypes);
    let n = a.len() as int;
    match r {
        Ok(v) => {
            assert forall|j: int| 0 <= j < dtypes.len() implies #[trigger] last_input_for(b, j, n)
                >= 0 by {
                assert(last_input_for(a, j, n) >= 0);
            }
            assert forall|j: int| 0 <= j < dtypes.len() implies produced(
                build,
                b[last_input_for(b, j, n)].data,
                dtypes[j],
                #[trigger] v[j],
            ) by {
                let k = last_input_for(a, j, n);
                assert(k >= 0);
                lemma_last_input_range(a, j, n);
                assert(last_input_for(b, j, n) == k);
                assert(a[k].data == b[k].data);
                assert(produced(build, a[k].data, dtypes[j], v[j]));
            }
        },
        Err(e) => {
            if exists|k: int|
                0 <= k < n && (forall|i: int| 0 <= i < k ==> input_built(build, a, dtypes, i))
                    && #[trigger] input_error(build, a, dtypes, k, e) {
                let k = choose|k: int|
                    0 <= k < n && (forall|i: int| 0 <= i < k ==> input_built(build, a, dtypes, i))
                        && #[trigger] input_error(build, a, dtypes, k, e);
                assert(input_error(build, b, dtypes, k, e));
                assert(forall|i: int| 0 <= i < k ==> input_built(build, b, dtypes, i));
            } else {
                let j = choose|j: int|
                    0 <= j < dtypes.len() && last_input_for(a, j, n) < 0 && (forall|j2: int|
                        0 <= j2 < j ==> last_input_for(a, j2, n) >= 0) && e.status
                        == Status::BadRequest && e.detail@ == #[trigger] missing_input_detail(
                        j as nat,
                    );
                assert(last_input_for(b, j, n) < 0);
                assert(forall|j2: int| 0 <= j2 < j ==> last_input_for(b, j2, n) >= 0);
                assert(forall|i: int| 0 <= i < n ==> input_built(build, b, dtypes, i));
            }
        },
    }
}

/// With a deterministic `build`, input lists that agree, position by
/// position, on the model input fed and the data give alike outcomes.
pub proof fn law_inputs_by_slot_same_outcome<N, T, F: Fn(TensorData<N>) -> Result<T, AppError>>(
    build: F,
    a: Seq<InvokeInput<N>>,
    b: Seq<InvokeInput<N>>,
    dtypes: Seq<DType>,
    r1: Result<Seq<T>, AppError>,
    r2: Result<Seq<T>, AppError>,
)
    requires
        deterministic(build),
        a.len() == b.len(),
        forall|i: int|
            #![trigger a[i]]
            0 <= i < a.len() ==> a[i].data == b[i].data && input_slot(a, i) == input_slot(b, i),
        prepared(build, a, dtypes, r1),
        prepared(build, b, dtypes, r2),
    ensures
        same_outcome(r1, r2),
{
    lemma_prepared_transfer(build, a, b, dtypes, r1);
    law_prepare_deterministic(build, b, dtypes, r1, r2);
}

/// With a deterministic `build`, a request's single `input` gives the same
/// outcome as an `inputs` list holding that value for model input 0.
pub proof fn law_single_input_same_outcome<N, T, F: Fn(TensorData<N>) -> Result<T, AppError>>(
    build: F,
    x: Json<N>,
    dtypes: Seq<DType>,
    r1: Result<Seq<T>, AppError>,
    r2: Result<Seq<T>, AppError>,
)
    requires
        deterministic(build),
        prepared(build, seq![InvokeInput { index: None, data: x, dtype: None }], dtypes, r1),
        prepared(build, seq![InvokeInput { index: Some(0usize), data: x, dtype: None }], dtypes, r2),
    ensures
        same_outcome(r1, r2),
{
    let a = seq![InvokeInput { index: None, data: x, dtype: None }];
    let b = seq![InvokeInput { index: Some(0usize), data: x, dtype: None }];
    assert(input_slot(a, 0) == input_slot(b, 0));
    law_inputs_by_slot_same_outcome(build, a, b, dtypes, r1, r2);
}

/// Whether request input `m` names model input `j`: by its index, or, when
/// it has none, by its position.
pub open spec fn names_model_input<N>(items: Seq<InvokeInput<N>>, m: int, j: int) -> bool {
    ||| items[m].index matches Some(x) && x == j
    ||| items[m].index is None && m == j
}

/// Request input `i`, which names model input `j`, is the last to feed it
/// when no later request input names it.
proof fn lemma_last_naming_input<N>(items: Seq<InvokeInput<N>>, i: int, j: int, k: int)
    requires
        0 <= i < k <= items.len(),
        names_model_input(items, i, j),
        forall|m: int| i < m < items.len() ==> !#[trigger] names_model_input(items, m, j),
    ensures
        last_input_for(items, j, k) == i,
    decreases k,
{
    if k > i + 1 {
        lemma_last_naming_input(items, i, j, k - 1);
        assert(!names_model_input(items, k - 1, j));
    }
}

/// A later request input replaces an earlier one: when `prepare_inputs`
/// succeeds, the value of model input `j` is built from the last request
/// input that names `j`, by its index or, without an index, by its
/// position.
pub proof fn law_last_naming_input_wins<N, T, F: Fn(TensorData<N>) -> Result<T, AppError>>(
    build: F,
    items: Seq<InvokeInput<N>>,
    dtypes: Seq<DType>,
    v: Seq<T>,
    i: int,
    j: int,
)
    requires
        prepared_ok(build, items, dtypes, v),
        0 <= i < items.len(),
        names_model_input(items, i, j),
        forall|m: int| i < m < items.len() ==> !#[trigger] names_model_input(items, m, j),
    ensures
        0 <= j < dtypes.len(),
        produced(build, items[i].data, dtypes[j], v[j]),
{
    assert(input_built(build, items, dtypes, i));
    lemma_last_naming_input(items, i, j, items.len() as int);
}

/// A request input without an index feeds the model input at its own
/// position: when `prepare_inputs` succeeds and no later request input
/// names that model input, the value of model input `i` is built from
/// request input `i`.
pub proof fn law_unindexed_input_feeds_own_position<
    N,
    T,
    F: Fn(TensorData<N>) -> Result<T, AppError>,
>(build: F, items: Seq<InvokeInput<N>>, dtypes: Seq<DType>, v: Seq<T>, i: int)
    requires
        prepared_ok(build, items, dtypes, v),
        0 <= i < items.len(),
        items[i].index is None,
        forall|m: int|
            #![trigger items[m]]
            i < m < items.len() ==> !(items[m].index matches Some(x) && x == i),
    ensures
        i < dtypes.len(),
        produced(build, items[i].data, dtypes[i], v[i]),
{
    assert forall|m: int| i < m < items.len() implies !#[trigger] names_model_input(items, m, i) by {
        assert(!(items[m].index matches Some(x) && x == i));
    }
    law_last_naming_input_wins(build, items, dtypes, v, i, i);
}

/// `n` request inputs, none with an index, for a model with `n` inputs
/// feed the model inputs in order: when each one's data can be read with
/// the element type of the model input at its position and `build` never
/// fails, `prepare_inputs` cannot fail; and a success holds, for each
/// position `j`, a value built from request input `j`.
pub proof fn law_positional_inputs<N, T, F: Fn(TensorData<N>) -> Result<T, AppError>>(
    build: F,
    items: Seq<InvokeInput<N>>,
    dtypes: Seq<DType>,
)
    requires
        items.len() == dtypes.len(),
        forall|i: int| 0 <= i < items.len() ==> (#[trigger] items[i]).index is None,
    ensures
        (forall|i: int| 0 <= i < items.len() ==> tensor_readable(#[trigger] items[i].data, dtypes[i]))
            && (forall|t: TensorData<N>, r: Result<T, AppError>|
            #[trigger] call_ensures(build, (t,), r) ==> r is Ok) ==> forall|e: AppError|
            !prepared_err(build, items, dtypes, e),
        forall|v: Seq<T>|
            #[trigger] prepared_ok(build, items, dtypes, v) ==> forall|j: int|
                0 <= j < items.len() ==> produced(build, items[j].data, dtypes[j], #[trigger] v[j]),
{
    let n = items.len() as int;
    assert forall|j: int| 0 <= j < n implies last_input_for(items, j, n) == j by {
        assert(items[j].index is None);
        assert forall|m: int| j < m < n implies !#[trigger] names_model_input(items, m, j) by {
            assert(items[m].index is None);
        }
        lemma_last_naming_input(items, j, j, n);
    }
    if (forall|i: int| 0 <= i < n ==> tensor_readable(#[trigger] items[i].data, dtypes[i])) && (
    forall|t: TensorData<N>, r: Result<T, AppError>|
        #[trigger] call_ensures(build, (t,), r) ==> r is Ok) {
        assert forall|e: AppError| !prepared_err(build, items, dtypes, e) by {
            assert forall|k: int| 0 <= k < n implies !#[trigger] input_error(
                build,
                items,
                dtypes,
                k,
                e,
            ) by {
                assert(items[k].index is None);
                assert(input_slot(items, k) == k);
                assert(tensor_readable(items[k].data, dtypes[k]));
                if input_error(build, items, dtypes, k, e) {
                    let t = choose|t: TensorData<N>|
                        tensor_of(t, items[k].data, dtypes[k]) && #[trigger] call_ensures(
                            build,
                            (t,),
                            Err(e),
                        );
                    assert(call_ensures(build, (t,), Err::<T, AppError>(e)));
                }
            }
            assert forall|j: int| 0 <= j < dtypes.len() implies last_input_for(items, j, n) >= 0 by {
                assert(last_input_for(items, j, n) == j);
            }
        }
    }
    assert forall|v: Seq<T>| #[trigger] prepared_ok(build, items, dtypes, v) implies forall|j: int|
        0 <= j < n ==> produced(build, items[j].data, dtypes[j], #[trigger] v[j]) by {
        assert forall|j: int| 0 <= j < n implies produced(
            build,
            items[j].data,
            dtypes[j],
            #[trigger] v[j],
        ) by {
            assert(last_input_for(items, j, n) == j);
        }
    }
}

/// One output of an inference answer: its position among the model's
/// outputs, its data as nested arrays, its element type name and its shape.
#[derive(Debug, PartialEq)]
pub struct OutputEntry<N> {
    pub index: usize,
    pub data: Json<N>,
    pub dtype: &'static str,
    pub shape: Vec<usize>,
}

/// Describes output `i` of an inference run: reported under its position
/// `i`, its elements nested along its shape, or `null` data when its element
/// type is not converted or its elements could not be read (`flat` is
/// `None`).
pub fn describe_output<N>(i: usize, dtype: &DType, flat: Option<Vec<N>>, shape: Vec<usize>) -> (o:
    OutputEntry<N>)
    requires
        array_supported(*dtype) && flat is Some ==> reshapable(shape@),
    ensures
        o.index == i,
        array_supported(*dtype) && flat is Some ==> nested(o.data, flat->0@, shape@),
        !array_supported(*dtype) || flat is None ==> o.data is Null,
        o.dtype@ == dtype_label(*dtype),
        o.shape@ == shape@,
{
    let data = match flat {
        Some(values) => match tensor_to_json(dtype, values, &shape) {
            Ok(j) => j,
            Err(_) => Json::Null,
        },
        None => Json::Null,
    };
    OutputEntry { index: i, data, dtype: datum_type_to_str(dtype), shape }
}

/// A model input or output as the service describes it: its position among
/// the model's inputs or outputs (the index a request's `inputs` use), its
/// shape (empty when not fully known) and its element type name.
#[derive(Debug, PartialEq, Eq)]
pub struct IoDescriptor {
    pub index: usize,
    pub shape: Vec<i64>,
    pub dtype: &'static str,
}

/// Describes the model input or output at position `position` from its
/// dimensions when all known, and its element type.
pub fn describe_io(position: usize, dims: Option<Vec<usize>>, dtype: &DType) -> (d: IoDescriptor)
    ensures
        d.index == position,
        dims matches Some(ds) ==> d.shape@.len() == ds@.len() && forall|i: int|
            0 <= i < ds@.len() ==> d.shape@[i] == ds@[i] as i64,
        dims is None ==> d.shape@.len() == 0,
        d.dtype@ == dtype_label(*dtype),
{
    IoDescriptor { index: position, shape: fact_shape(dims), dtype: datum_type_to_str(dtype) }
}

} // verus!
