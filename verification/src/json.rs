use vstd::prelude::*;

verus! {

broadcast use vstd::std_specs::vec::group_vec_axioms;

/// A JSON value whose numbers are of type `N`.
#[derive(Debug, PartialEq)]
pub enum Json<N> {
    Null,
    Bool(bool),
    Number(N),
    Str(String),
    Array(Vec<Json<N>>),
    Object(Vec<(String, Json<N>)>),
}

/// One element of a flattened JSON tensor: a number, or the `1` or `0` that
/// stands for `true`, `false` and every non-numeric value.
#[derive(Debug, PartialEq)]
pub enum Scalar<N> {
    Num(N),
    One,
    Zero,
}

/// The shape of a nested JSON array, read along its first elements: the
/// length of each level, descending while the first element is an array.
/// Anything that is not an array has the empty shape.
pub open spec fn shape_of<N>(j: Json<N>) -> Seq<usize>
    decreases j,
{
    match j {
        Json::Array(a) => seq![a@.len() as usize] + if a@.len() > 0 && a@[0] is Array {
            shape_of(a@[0])
        } else {
            Seq::<usize>::empty()
        },
        _ => Seq::<usize>::empty(),
    }
}

/// The elements of a JSON value in reading order: numbers stay, `true` is
/// `One`, `false` is `Zero`, arrays are flattened, and any other value
/// (`null`, a string, an object) is one `Zero`.
pub open spec fn flat_of<N>(j: Json<N>) -> Seq<Scalar<N>>
    decreases j,
{
    match j {
        Json::Number(n) => seq![Scalar::Num(n)],
        Json::Bool(b) => seq![if b { Scalar::One } else { Scalar::Zero }],
        Json::Array(a) => flat_list(a@),
        _ => seq![Scalar::Zero],
    }
}

/// The flattened elements of a list of JSON values, one after the other.
pub open spec fn flat_list<N>(s: Seq<Json<N>>) -> Seq<Scalar<N>>
    decreases s,
{
    if s.len() == 0 {
        Seq::<Scalar<N>>::empty()
    } else {
        flat_list(s.drop_last()) + flat_of(s.last())
    }
}

/// The shape of `value` (see `shape_of`).
pub fn json_to_shape<N>(value: &Json<N>) -> (shape: Vec<usize>)
    ensures
        shape@ == shape_of(*value),
    decreases value,
{
    match value {
        Json::Array(arr) => {
            let mut shape: Vec<usize> = Vec::new();
            shape.push(arr.len());
            if arr.len() > 0 {
                let first = &arr[0];
                match first {
                    Json::Array(_) => {
                        let mut rest = json_to_shape(first);
                        shape.append(&mut rest);
                    },
                    _ => {},
                }
            }
            shape
        },
        _ => Vec::new(),
    }
}

/// Appends the flattened elements of `value` to `out`.
fn flatten_into<N: Copy>(value: &Json<N>, out: &mut Vec<Scalar<N>>)
    ensures
        final(out)@ == old(out)@ + flat_of(*value),
    decreases value,
{
    match value {
        Json::Number(n) => {
            out.push(Scalar::Num(*n));
        },
        Json::Bool(b) => {
            out.push(if *b { Scalar::One } else { Scalar::Zero });
        },
        Json::Array(arr) => {
            let ghost start = out@;
            for i in 0..arr.len()
                invariant
                    *value == Json::<N>::Array(*arr),
                    out@ == start + flat_list(arr@.take(i as int)),
            {
                assert(arr@.take(i + 1).drop_last() == arr@.take(i as int));
                proof {
                    assert(decreases_to!(*arr => arr@[i as int]));
                    assert(decreases_to!(*value => value->Array_0));
                    assert(value->Array_0 == *arr);
                }
                flatten_into(&arr[i], out);
            }
            assert(arr@.take(arr@.len() as int) == arr@);
        },
        _ => {
            out.push(Scalar::Zero);
        },
    }
}

/// The flattened elements of `value` (see `flat_of`).
pub fn json_flatten<N: Copy>(value: &Json<N>) -> (flat: Vec<Scalar<N>>)
    ensures
        flat@ == flat_of(*value),
{
    let mut flat: Vec<Scalar<N>> = Vec::new();
    flatten_into(value, &mut flat);
    assert(flat@ == Seq::<Scalar<N>>::empty() + flat_of(*value));
    flat
}


/// The product of the dimensions in `s` (1 for no dimensions).
pub open spec fn product(s: Seq<usize>) -> nat
    decreases s.len(),
{
    if s.len() == 0 {
        1
    } else {
        product(s.drop_last()) * (s.last() as nat)
    }
}

/// A shape that `reshape_to_nested` can lay out: at most one dimension, or
/// inner dimensions whose product is neither zero nor beyond `usize`.
pub open spec fn reshapable(shape: Seq<usize>) -> bool {
    shape.len() <= 1 || (0 < product(shape.drop_first()) && product(shape.drop_first())
        <= usize::MAX)
}

/// Chunks completed after reading `s` in runs of `c`, and the open chunk:
/// what the chunking loop of `reshape_to_nested` keeps.
spec fn chunk_fold<N>(s: Seq<N>, c: nat) -> (Seq<Seq<N>>, Seq<N>)
    decreases s.len(),
{
    if s.len() == 0 {
        (Seq::<Seq<N>>::empty(), Seq::<N>::empty())
    } else {
        let (done, cur) = chunk_fold(s.drop_last(), c);
        if cur.len() + 1 == c {
            (done.push(cur.push(s.last())), Seq::<N>::empty())
        } else {
            (done, cur.push(s.last()))
        }
    }
}

/// The chunks the chunking loop ends with.
spec fn chunks_by_fold<N>(s: Seq<N>, c: nat) -> Seq<Seq<N>> {
    let (done, cur) = chunk_fold(s, c);
    if cur.len() > 0 {
        done.push(cur)
    } else {
        done
    }
}

/// `s` cut into consecutive runs of `c` elements, the last run possibly
/// shorter (`slice::chunks`): run `k` is `s[k*c .. min((k+1)*c, len)]`, and
/// there are `ceil(len / c)` of them. A size of 0 keeps a nonempty `s` whole.
pub open spec fn chunks_of<N>(s: Seq<N>, c: nat) -> Seq<Seq<N>> {
    if c == 0 {
        if s.len() == 0 {
            Seq::<Seq<N>>::empty()
        } else {
            seq![s]
        }
    } else {
        Seq::new(
            ((s.len() + c - 1) / (c as int)) as nat,
            |k: int|
                s.subrange(
                    k * c,
                    if (k + 1) * c < s.len() {
                        (k + 1) * c
                    } else {
                        s.len() as int
                    },
                ),
        )
    }
}

/// `j` lays `flat` out along `shape`: with at most one dimension, an array
/// of the numbers of `flat`; otherwise an array with one entry per run of
/// `product(shape[1..])` elements, each laid out along `shape[1..]`.
pub open spec fn nested<N>(j: Json<N>, flat: Seq<N>, shape: Seq<usize>) -> bool
    decreases shape.len(),
{
    match j {
        Json::Array(a) => if shape.len() <= 1 {
            &&& a@.len() == flat.len()
            &&& forall|i: int| 0 <= i < flat.len() ==> a@[i] == Json::Number(flat[i])
        } else {
            let ch = chunks_of(flat, product(shape.drop_first()));
            &&& a@.len() == ch.len()
            &&& forall|k: int|
                0 <= k < ch.len() ==> nested(#[trigger] a@[k], ch[k], shape.drop_first())
        },
        _ => false,
    }
}

/// Splitting off the first dimension of a product.
pub proof fn lemma_product_first(s: Seq<usize>)
    requires
        s.len() > 0,
    ensures
        product(s) == s[0] * product(s.drop_first()),
    decreases s.len(),
{
    if s.len() == 1 {
        assert(product(s.drop_first()) == 1);
        assert(product(s.drop_last()) == 1);
        assert(product(s) == product(s.drop_last()) * (s.last() as nat));
        assert(s.last() == s[0]);
    } else {
        lemma_product_first(s.drop_last());
        assert(s.drop_last().drop_first() == s.drop_first().drop_last());
        let a = s[0] as int;
        let p = product(s.drop_first().drop_last()) as int;
        let l = s.last() as int;
        assert(product(s) == product(s.drop_last()) * (s.last() as nat));
        assert(product(s.drop_last()) == a * p);
        assert(s.drop_first().last() == s.last());
        assert(product(s.drop_first()) == p * l);
        assert(a * p * l == a * (p * l)) by (nonlinear_arith);
        assert(product(s) == a * p * l);
    }
}

/// A prefix of a nonzero product of dimensions is no larger than it.
proof fn lemma_product_prefix(s: Seq<usize>, k: int)
    requires
        0 <= k <= s.len(),
        product(s) > 0,
    ensures
        product(s.take(k)) <= product(s),
        product(s.take(k)) > 0,
    decreases s.len(),
{
    if k < s.len() {
        let p = product(s.drop_last()) as int;
        let l = s.last() as int;
        assert(p * l > 0 ==> p > 0 && l > 0 && p <= p * l) by (nonlinear_arith)
            requires p >= 0, l >= 0;
        assert(s.drop_last().take(k) == s.take(k));
        lemma_product_prefix(s.drop_last(), k);
    } else {
        assert(s.take(k) == s);
    }
}

/// The inner dimensions of a shape that can be laid out can be laid out too.
proof fn lemma_reshapable_tail(shape: Seq<usize>)
    requires
        shape.len() > 1,
        reshapable(shape),
    ensures
        reshapable(shape.drop_first()),
{
    let t = shape.drop_first();
    if t.len() > 1 {
        lemma_product_first(t);
        let a = t[0] as int;
        let p = product(t.drop_first()) as int;
        assert(a * p > 0 ==> p > 0 && p <= a * p) by (nonlinear_arith)
            requires a >= 0, p >= 0;
    }
}

/// The product of the dimensions of `shape` (`requires` it to fit `usize`
/// and be nonzero).
fn dims_product(shape: &Vec<usize>) -> (p: usize)
    requires
        0 < product(shape@) <= usize::MAX,
    ensures
        p == product(shape@),
{
    let mut acc: usize = 1;
    for i in 0..shape.len()
        invariant
            0 < product(shape@) <= usize::MAX,
            acc == product(shape@.take(i as int)),
    {
        proof {
            lemma_product_prefix(shape@, i + 1);
            assert(shape@.take(i + 1).drop_last() == shape@.take(i as int));
        }
        acc = acc * shape[i];
    }
    assert(shape@.take(shape@.len() as int) == shape@);
    acc
}

/// Lays the elements of `flat` out as nested JSON arrays along `shape`
/// (see `nested`).
pub fn reshape_to_nested<N>(flat: Vec<N>, shape: &Vec<usize>) -> (j: Json<N>)
    requires
        reshapable(shape@),
    ensures
        nested(j, flat@, shape@),
    decreases shape@.len(),
{
    let ghost fs = flat@;
    if shape.len() <= 1 {
        let mut arr: Vec<Json<N>> = Vec::new();
        for x in it: flat.into_iter()
            invariant
                it.seq() == fs,
                arr@.len() == it.index(),
                forall|i: int| 0 <= i < arr@.len() ==> arr@[i] == Json::Number(fs[i]),
        {
            arr.push(Json::Number(x));
        }
        return Json::Array(arr);
    }
    let mut tail: Vec<usize> = Vec::new();
    for i in 1..shape.len()
        invariant
            tail@ == shape@.subrange(1, i as int),
    {
        tail.push(shape[i]);
    }
    assert(tail@ == shape@.drop_first());
    proof {
        lemma_reshapable_tail(shape@);
    }
    let c = dims_product(&tail);
    let mut chunks: Vec<Vec<N>> = Vec::new();
    let mut cur: Vec<N> = Vec::new();
    for x in it: flat.into_iter()
        invariant
            it.seq() == fs,
            c == product(tail@),
            c > 0,
            chunks@.len() == chunk_fold(fs.take(it.index() as int), c as nat).0.len(),
            forall|k: int|
                0 <= k < chunks@.len() ==> (#[trigger] chunks@[k])@ == chunk_fold(
                    fs.take(it.index() as int),
                    c as nat,
                ).0[k],
            cur@ == chunk_fold(fs.take(it.index() as int), c as nat).1,
            cur@.len() < c,
    {
        proof {
            assert(fs.take(it.index() + 1).drop_last() == fs.take(it.index() as int));
            assert(fs.take(it.index() + 1).last() == x);
        }
        cur.push(x);
        if cur.len() == c {
            let mut done: Vec<N> = Vec::new();
            std::mem::swap(&mut done, &mut cur);
            chunks.push(done);
        }
    }
    proof {
        assert(fs.take(fs.len() as int) == fs);
    }
    if cur.len() > 0 {
        chunks.push(cur);
    }
    let ghost ch = chunks_of(fs, c as nat);
    proof {
        lemma_chunks_direct(fs, c as nat);
    }
    assert(chunks@.len() == ch.len());
    assert(forall|k: int| 0 <= k < chunks@.len() ==> (#[trigger] chunks@[k])@ == ch[k]);
    let mut children: Vec<Json<N>> = Vec::new();
    for part in it: chunks.into_iter()
        invariant
            reshapable(tail@),
            tail@ == shape@.drop_first(),
            tail@.len() + 1 == shape@.len(),
            it.seq().len() == ch.len(),
            forall|k: int| 0 <= k < ch.len() ==> (#[trigger] it.seq()[k])@ == ch[k],
            children@.len() == it.index(),
            forall|k: int|
                0 <= k < children@.len() ==> nested(#[trigger] children@[k], ch[k], tail@),
    {
        proof {
            assert(part == it.seq()[it.index() as int]);
        }
        let child = reshape_to_nested(part, &tail);
        children.push(child);
    }
    Json::Array(children)
}


/// The elements of `s`, each as a number element.
pub open spec fn as_scalars<N>(s: Seq<N>) -> Seq<Scalar<N>> {
    s.map_values(|x: N| Scalar::Num(x))
}

/// The sequences of `ss` joined one after the other.
pub open spec fn concat_all<T>(ss: Seq<Seq<T>>) -> Seq<T>
    decreases ss.len(),
{
    if ss.len() == 0 {
        Seq::<T>::empty()
    } else {
        concat_all(ss.drop_last()) + ss.last()
    }
}

proof fn lemma_as_scalars_push<N>(s: Seq<N>, x: N)
    ensures
        as_scalars(s.push(x)) == as_scalars(s).push(Scalar::Num(x)),
{
    assert(as_scalars(s.push(x)) =~= as_scalars(s).push(Scalar::Num(x)));
}

proof fn lemma_as_scalars_add<N>(s: Seq<N>, t: Seq<N>)
    ensures
        as_scalars(s + t) == as_scalars(s) + as_scalars(t),
{
    assert(as_scalars(s + t) =~= as_scalars(s) + as_scalars(t));
}

/// What the chunking fold keeps: the chunks and the open chunk spell the
/// input; with a positive size, closed chunks are full and the open one is
/// not.
proof fn lemma_chunk_fold<N>(s: Seq<N>, c: nat)
    ensures
        concat_all(chunk_fold(s, c).0) + chunk_fold(s, c).1 == s,
        c > 0 ==> chunk_fold(s, c).1.len() < c,
        c > 0 ==> forall|k: int|
            0 <= k < chunk_fold(s, c).0.len() ==> (#[trigger] chunk_fold(s, c).0[k]).len() == c,
        c > 0 ==> chunk_fold(s, c).0.len() * c + chunk_fold(s, c).1.len() == s.len(),
        c > 0 ==> forall|k: int|
            0 <= k < chunk_fold(s, c).0.len() ==> #[trigger] chunk_fold(s, c).0[k] == s.subrange(
                k * c,
                k * c + c,
            ),
        c > 0 ==> chunk_fold(s, c).1 == s.subrange(
            (chunk_fold(s, c).0.len() * c) as int,
            s.len() as int,
        ),
        c == 0 ==> chunk_fold(s, c).0.len() == 0 && chunk_fold(s, c).1 == s,
    decreases s.len(),
{
    if s.len() > 0 {
        lemma_chunk_fold(s.drop_last(), c);
        let d0 = chunk_fold(s.drop_last(), c).0;
        let c0 = chunk_fold(s.drop_last(), c).1;
        let x = s.last();
        assert(s.drop_last().push(x) == s);
        if c0.len() + 1 == c {
            let d = d0.push(c0.push(x));
            assert(d.drop_last() == d0);
            assert(concat_all(d) == concat_all(d0) + c0.push(x));
            assert(concat_all(d0) + c0.push(x) == (concat_all(d0) + c0).push(x));
            assert(concat_all(d) + Seq::<N>::empty() == concat_all(d));
            let dl = d0.len() as int;
            let ci = c as int;
            assert((dl + 1) * ci == dl * ci + ci) by (nonlinear_arith);
            assert forall|k: int| 0 <= k < d.len() implies #[trigger] d[k] == s.subrange(
                k * c,
                k * c + c,
            ) by {
                if k < dl {
                    assert(k * ci + ci <= dl * ci) by (nonlinear_arith)
                        requires k < dl, ci > 0;
                    assert(d[k] == d0[k]);
                    assert(d0[k] == s.drop_last().subrange(k * c, k * c + c));
                    assert(s.drop_last().subrange(k * c, k * c + c) =~= s.subrange(k * c, k * c + c));
                } else {
                    assert(d[k] == c0.push(x));
                    assert(c0.push(x) =~= s.subrange(k * c, k * c + c));
                }
            }
            assert(Seq::<N>::empty() =~= s.subrange((d.len() * c) as int, s.len() as int));
        } else {
            assert(concat_all(d0) + c0.push(x) == (concat_all(d0) + c0).push(x));
            if c > 0 {
                let dl = d0.len() as int;
                let ci = c as int;
                assert forall|k: int| 0 <= k < d0.len() implies #[trigger] d0[k] == s.subrange(
                    k * c,
                    k * c + c,
                ) by {
                    assert(k * ci + ci <= dl * ci) by (nonlinear_arith)
                        requires k < dl, ci > 0;
                    assert(s.drop_last().subrange(k * c, k * c + c) =~= s.subrange(k * c, k * c + c));
                }
                assert(c0.push(x) =~= s.subrange((d0.len() * c) as int, s.len() as int));
            } else {
                assert(c0.push(x) =~= s);
            }
        }
    } else {
        assert(concat_all(Seq::<Seq<N>>::empty()) + Seq::<N>::empty() == s);
        assert(Seq::<N>::empty() =~= s.subrange(0, 0));
    }
}

/// The chunks the chunking loop ends with are the runs of `chunks_of`.
proof fn lemma_chunks_direct<N>(s: Seq<N>, c: nat)
    ensures
        chunks_of(s, c) == chunks_by_fold(s, c),
{
    lemma_chunk_fold(s, c);
    let d = chunk_fold(s, c).0;
    let cur = chunk_fold(s, c).1;
    let f = chunks_by_fold(s, c);
    if c == 0 {
        if s.len() == 0 {
            assert(f =~= Seq::<Seq<N>>::empty());
        } else {
            assert(f =~= seq![s]);
        }
    } else {
        let ci = c as int;
        let dl = d.len() as int;
        let r = cur.len() as int;
        let len = s.len() as int;
        let q = if r > 0 { dl + 1 } else { dl };
        let rr = if r > 0 { r - 1 } else { ci - 1 };
        assert((dl + 1) * ci == dl * ci + ci) by (nonlinear_arith);
        assert(len == dl * ci + r);
        assert(len + ci - 1 == q * ci + rr);
        vstd::arithmetic::div_mod::lemma_fundamental_div_mod_converse(len + ci - 1, ci, q, rr);
        let g = chunks_of(s, c);
        assert(g.len() == f.len());
        assert forall|k: int| 0 <= k < g.len() implies g[k] == f[k] by {
            if k < dl {
                assert(k * ci + ci <= dl * ci) by (nonlinear_arith)
                    requires k < dl, ci > 0;
                assert((k + 1) * ci == k * ci + ci) by (nonlinear_arith);
                assert(f[k] == d[k]);
            } else {
                assert(k == dl && r > 0);
                assert((k + 1) * ci == k * ci + ci) by (nonlinear_arith);
                assert(f[k] == cur);
            }
        }
        assert(g =~= f);
    }
}

/// The chunks of a sequence spell it again.
proof fn lemma_chunks_concat<N>(s: Seq<N>, c: nat)
    ensures
        concat_all(chunks_of(s, c)) == s,
{
    lemma_chunks_direct(s, c);
    lemma_chunk_fold(s, c);
    let d = chunk_fold(s, c).0;
    let cur = chunk_fold(s, c).1;
    if cur.len() > 0 {
        assert(d.push(cur).drop_last() == d);
    } else {
        assert(concat_all(d) + cur == concat_all(d));
    }
}

/// Cutting `m` runs of `c` elements into chunks of `c` gives `m` full chunks.
proof fn lemma_chunks_exact<N>(s: Seq<N>, c: nat, m: nat)
    requires
        c > 0,
        s.len() == m * c,
    ensures
        chunks_of(s, c).len() == m,
        forall|k: int| 0 <= k < m ==> (#[trigger] chunks_of(s, c)[k]).len() == c,
{
    lemma_chunks_direct(s, c);
    lemma_chunk_fold(s, c);
    let d = chunk_fold(s, c).0;
    let r = chunk_fold(s, c).1.len();
    let dl = d.len();
    assert(r == 0 && dl == m) by (nonlinear_arith)
        requires
            dl * c + r == m * c,
            r < c,
            c > 0,
    {
        if dl < m {
            assert(dl * c + c <= m * c);
        } else if dl > m {
            assert(dl * c >= m * c + c);
        }
    }
}

/// Flattening an array of numbers gives those numbers.
proof fn lemma_flat_numbers<N>(a: Seq<Json<N>>, flat: Seq<N>)
    requires
        a.len() == flat.len(),
        forall|i: int| 0 <= i < flat.len() ==> a[i] == Json::Number(flat[i]),
    ensures
        flat_list(a) == as_scalars(flat),
    decreases a.len(),
{
    if a.len() > 0 {
        lemma_flat_numbers(a.drop_last(), flat.drop_last());
        assert(flat.drop_last().push(flat.last()) == flat);
        lemma_as_scalars_push(flat.drop_last(), flat.last());
        assert(flat_of(a.last()) == seq![Scalar::Num(flat.last())]);
    } else {
        assert(as_scalars(flat) =~= Seq::<Scalar<N>>::empty());
    }
}

/// Flattening an array whose entries flatten to the chunks of `ch` gives
/// all of `ch`, joined.
proof fn lemma_flat_chunks<N>(a: Seq<Json<N>>, ch: Seq<Seq<N>>)
    requires
        a.len() == ch.len(),
        forall|k: int| 0 <= k < ch.len() ==> flat_of(#[trigger] a[k]) == as_scalars(ch[k]),
    ensures
        flat_list(a) == as_scalars(concat_all(ch)),
    decreases a.len(),
{
    if a.len() > 0 {
        lemma_flat_chunks(a.drop_last(), ch.drop_last());
        assert(flat_of(a[a.len() - 1]) == as_scalars(ch[ch.len() - 1]));
        lemma_as_scalars_add(concat_all(ch.drop_last()), ch.last());
    } else {
        assert(as_scalars(concat_all(ch)) =~= Seq::<Scalar<N>>::empty());
    }
}

/// Reading back nested output: flattening the nested arrays that lay out
/// `flat` gives exactly the elements of `flat`, in order.
pub proof fn law_nested_flattens_back<N>(j: Json<N>, flat: Seq<N>, shape: Seq<usize>)
    requires
        nested(j, flat, shape),
    ensures
        flat_of(j) == as_scalars(flat),
    decreases shape.len(),
{
    match j {
        Json::Array(a) => {
            if shape.len() <= 1 {
                lemma_flat_numbers(a@, flat);
            } else {
                let t = shape.drop_first();
                let ch = chunks_of(flat, product(t));
                assert forall|k: int| 0 <= k < ch.len() implies flat_of(#[trigger] a@[k])
                    == as_scalars(ch[k]) by {
                    law_nested_flattens_back(a@[k], ch[k], t);
                }
                lemma_flat_chunks(a@, ch);
                lemma_chunks_concat(flat, product(t));
            }
        },
        _ => {},
    }
}

/// A product of positive dimensions is positive.
proof fn lemma_product_positive(s: Seq<usize>)
    requires
        forall|i: int| 0 <= i < s.len() ==> s[i] > 0,
    ensures
        product(s) > 0,
    decreases s.len(),
{
    if s.len() > 0 {
        lemma_product_positive(s.drop_last());
        let p = product(s.drop_last()) as int;
        let l = s.last() as int;
        assert(p * l > 0) by (nonlinear_arith)
            requires p > 0, l > 0;
    }
}

/// Reading back nested output: the arrays that lay out a tensor of at least
/// one dimension, none of them empty, have that tensor's shape.
pub proof fn law_nested_shape<N>(j: Json<N>, flat: Seq<N>, shape: Seq<usize>)
    requires
        nested(j, flat, shape),
        shape.len() >= 1,
        forall|i: int| 0 <= i < shape.len() ==> shape[i] > 0,
        flat.len() == product(shape),
    ensures
        shape_of(j) == shape,
    decreases shape.len(),
{
    lemma_product_first(shape);
    let t = shape.drop_first();
    lemma_product_positive(t);
    match j {
        Json::Array(a) => {
            if shape.len() == 1 {
                assert(product(t) == 1);
                assert(product(shape) == shape[0] as nat * 1);
                assert(flat.len() == shape[0]);
                assert(a@.len() == flat.len());
                assert(a@[0] == Json::Number(flat[0]));
                assert(shape_of(j) =~= shape);
            } else {
                let c = product(t);
                let ch = chunks_of(flat, c);
                assert(flat.len() == shape[0] as nat * c);
                lemma_chunks_exact(flat, c, shape[0] as nat);
                assert(ch[0].len() == c);
                assert(nested(a@[0], ch[0], t));
                law_nested_shape(a@[0], ch[0], t);
                assert(a@[0] is Array);
                assert(shape_of(j) =~= seq![shape[0]] + t);
                assert(seq![shape[0]] + t =~= shape);
            }
        },
        _ => {},
    }
}


/// `j` is a rectangular array of numbers of shape `shape`: every array at
/// depth `d` has `shape[d]` entries, and the innermost arrays hold numbers.
pub open spec fn rectangular<N>(j: Json<N>, shape: Seq<usize>) -> bool
    decreases shape.len(),
{
    match j {
        Json::Array(a) => {
            &&& shape.len() >= 1
            &&& a@.len() == shape[0]
            &&& if shape.len() == 1 {
                forall|i: int| 0 <= i < a@.len() ==> (#[trigger] a@[i]) is Number
            } else {
                forall|i: int| 0 <= i < a@.len() ==> rectangular(#[trigger] a@[i], shape.drop_first())
            }
        },
        _ => false,
    }
}

/// The numbers of a JSON value in reading order.
pub open spec fn numbers<N>(j: Json<N>) -> Seq<N>
    decreases j,
{
    match j {
        Json::Number(x) => seq![x],
        Json::Array(a) => numbers_list(a@),
        _ => Seq::<N>::empty(),
    }
}

/// The numbers of a list of JSON values, one value after the other.
pub open spec fn numbers_list<N>(s: Seq<Json<N>>) -> Seq<N>
    decreases s,
{
    if s.len() == 0 {
        Seq::<N>::empty()
    } else {
        numbers_list(s.drop_last()) + numbers(s.last())
    }
}

proof fn lemma_numbers_list<N>(a: Seq<Json<N>>)
    ensures
        numbers_list(a) == concat_all(Seq::new(a.len(), |i: int| numbers(a[i]))),
    decreases a.len(),
{
    if a.len() > 0 {
        lemma_numbers_list(a.drop_last());
        let ls = Seq::new(a.len(), |i: int| numbers(a[i]));
        assert(ls.drop_last() =~= Seq::new(a.drop_last().len(), |i: int| numbers(a.drop_last()[i])));
    } else {
        assert(Seq::new(a.len(), |i: int| numbers(a[i])) =~= Seq::<Seq<N>>::empty());
    }
}

/// The numbers of an array of numbers are those numbers.
proof fn lemma_numbers_of_numbers<N>(a: Seq<Json<N>>, xs: Seq<N>)
    requires
        a.len() == xs.len(),
        forall|i: int| 0 <= i < xs.len() ==> a[i] == Json::Number(xs[i]),
    ensures
        numbers_list(a) == xs,
    decreases a.len(),
{
    if a.len() > 0 {
        lemma_numbers_of_numbers(a.drop_last(), xs.drop_last());
        assert(a[a.len() - 1] == Json::Number(xs[xs.len() - 1]));
        assert(numbers(a.last()) == seq![xs.last()]);
        assert(xs.drop_last().push(xs.last()) == xs);
    } else {
        assert(xs =~= Seq::<N>::empty());
    }
}

/// Joining runs of `c` elements gives `c` elements per run.
proof fn lemma_concat_len<N>(ls: Seq<Seq<N>>, c: nat)
    requires
        forall|k: int| 0 <= k < ls.len() ==> (#[trigger] ls[k]).len() == c,
    ensures
        concat_all(ls).len() == ls.len() * c,
    decreases ls.len(),
{
    if ls.len() > 0 {
        lemma_concat_len(ls.drop_last(), c);
        let n = ls.len() as int;
        let ci = c as int;
        assert((n - 1) * ci + ci == n * ci) by (nonlinear_arith);
    }
}

/// Reading a full run of `c` elements after a completed chunking closes one
/// more chunk.
proof fn lemma_chunk_fold_extend<N>(s: Seq<N>, t: Seq<N>, c: nat, m: int)
    requires
        c > 0,
        t.len() == c,
        0 <= m <= c,
        chunk_fold(s, c).1.len() == 0,
    ensures
        m < c ==> chunk_fold(s + t.take(m), c) == (chunk_fold(s, c).0, t.take(m)),
        m == c ==> chunk_fold(s + t.take(m), c) == (chunk_fold(s, c).0.push(t), Seq::<N>::empty()),
    decreases m,
{
    if m == 0 {
        assert(s + t.take(0) =~= s);
        assert(chunk_fold(s, c).1 =~= t.take(0));
    } else {
        lemma_chunk_fold_extend(s, t, c, m - 1);
        let u = s + t.take(m);
        assert(u.drop_last() =~= s + t.take(m - 1));
        assert(u.last() == t[m - 1]);
        assert(t.take(m - 1).push(t[m - 1]) =~= t.take(m));
        if m == c {
            assert(t.take(m) =~= t);
        }
    }
}

/// Chunking runs of `c` elements joined together gives back the runs.
proof fn lemma_chunks_of_concat<N>(ls: Seq<Seq<N>>, c: nat)
    requires
        c > 0,
        forall|k: int| 0 <= k < ls.len() ==> (#[trigger] ls[k]).len() == c,
    ensures
        chunk_fold(concat_all(ls), c) == (ls, Seq::<N>::empty()),
        chunks_of(concat_all(ls), c) == ls,
    decreases ls.len(),
{
    lemma_chunks_direct(concat_all(ls), c);
    if ls.len() == 0 {
        assert(chunk_fold(concat_all(ls), c) == (ls, Seq::<N>::empty()));
    } else {
        lemma_chunks_of_concat(ls.drop_last(), c);
        let t = ls.last();
        assert(ls[ls.len() - 1].len() == c);
        lemma_chunk_fold_extend(concat_all(ls.drop_last()), t, c, c as int);
        assert(t.take(c as int) =~= t);
        assert(ls.drop_last().push(t) =~= ls);
    }
}

/// A rectangular array of numbers is exactly what nesting its numbers along
/// its shape writes: its flattened elements are its numbers, its shape is
/// the given one, it has as many numbers as the shape's product, and it
/// satisfies `nested` for its numbers and shape. So reading an input whose
/// arrays are rectangular and writing the tensor back as output gives the
/// same arrays.
pub proof fn law_rectangular_input_writes_back<N>(v: Json<N>, shape: Seq<usize>)
    requires
        rectangular(v, shape),
        forall|i: int| 0 <= i < shape.len() ==> shape[i] > 0,
    ensures
        flat_of(v) == as_scalars(numbers(v)),
        shape_of(v) == shape,
        numbers(v).len() == product(shape),
        nested(v, numbers(v), shape),
    decreases shape.len(),
{
    lemma_product_first(shape);
    let t = shape.drop_first();
    match v {
        Json::Array(a) => {
            let leaves = numbers(v);
            if shape.len() == 1 {
                let xs = Seq::new(a@.len(), |i: int| a@[i]->Number_0);
                assert forall|i: int| 0 <= i < a@.len() implies a@[i] == Json::Number(xs[i]) by {
                    assert(a@[i] is Number);
                }
                lemma_flat_numbers(a@, xs);
                lemma_numbers_of_numbers(a@, xs);
                assert(product(t) == 1);
                assert(numbers(v) == xs);
                assert(product(shape) == shape[0] as nat * 1);
                assert(shape_of(v) =~= shape);
            } else {
                let c = product(t);
                lemma_product_positive(t);
                let ls = Seq::new(a@.len(), |i: int| numbers(a@[i]));
                assert forall|k: int| 0 <= k < ls.len() implies {
                    &&& (#[trigger] ls[k]).len() == c
                    &&& flat_of(a@[k]) == as_scalars(ls[k])
                    &&& shape_of(a@[k]) == t
                    &&& nested(a@[k], ls[k], t)
                } by {
                    law_rectangular_input_writes_back(a@[k], t);
                }
                lemma_numbers_list(a@);
                lemma_flat_chunks(a@, ls);
                lemma_concat_len(ls, c);
                lemma_chunks_of_concat(ls, c);
                assert(leaves == concat_all(ls));
                assert(a@.len() > 0);
                assert(rectangular(a@[0], t));
                assert(a@[0] is Array);
                assert(ls[0].len() == c);
                assert(shape_of(a@[0]) == t);
                assert(shape_of(v) =~= seq![shape[0]] + t);
                assert(leaves.len() == shape[0] as nat * c);
                assert(seq![shape[0]] + t =~= shape);
            }
        },
        _ => {},
    }
}


/// Two JSON values are the same value: the same kind, equal numbers,
/// booleans and texts, and arrays and objects of equal length whose entries
/// (and keys) are the same one by one.
pub open spec fn json_eq<N>(a: Json<N>, b: Json<N>) -> bool
    decreases a,
{
    match a {
        Json::Null => b is Null,
        Json::Bool(x) => b matches Json::Bool(y) && x == y,
        Json::Number(x) => b matches Json::Number(y) && x == y,
        Json::Str(x) => b matches Json::Str(y) && x@ == y@,
        Json::Array(x) => match b {
            Json::Array(y) => x@.len() == y@.len() && forall|i: int|
                0 <= i < x@.len() ==> json_eq(#[trigger] x@[i], y@[i]),
            _ => false,
        },
        Json::Object(x) => match b {
            Json::Object(y) => x@.len() == y@.len() && forall|i: int|
                0 <= i < x@.len() ==> (#[trigger] x@[i]).0@ == y@[i].0@ && json_eq(x@[i].1, y@[i].1),
            _ => false,
        },
    }
}

/// Nesting is unique: two JSON values that both lay `flat` out along
/// `shape` are the same value.
pub proof fn law_nested_unique<N>(j1: Json<N>, j2: Json<N>, flat: Seq<N>, shape: Seq<usize>)
    requires
        nested(j1, flat, shape),
        nested(j2, flat, shape),
    ensures
        json_eq(j1, j2),
    decreases shape.len(),
{
    match (j1, j2) {
        (Json::Array(a1), Json::Array(a2)) => {
            if shape.len() <= 1 {
                assert forall|i: int| 0 <= i < a1@.len() implies json_eq(#[trigger] a1@[i], a2@[i]) by {
                    assert(a1@[i] == Json::Number(flat[i]));
                    assert(a2@[i] == Json::Number(flat[i]));
                }
            } else {
                let t = shape.drop_first();
                let ch = chunks_of(flat, product(t));
                assert forall|i: int| 0 <= i < a1@.len() implies json_eq(#[trigger] a1@[i], a2@[i]) by {
                    assert(nested(a1@[i], ch[i], t));
                    assert(nested(a2@[i], ch[i], t));
                    law_nested_unique(a1@[i], a2@[i], ch[i], t);
                }
            }
        },
        _ => {},
    }
}

/// Round trip of a rectangular input: writing the numbers of a rectangular
/// array of numbers (no empty dimension) back along its shape gives that
/// same array.
pub proof fn law_rectangular_round_trip<N>(v: Json<N>, shape: Seq<usize>, j: Json<N>)
    requires
        rectangular(v, shape),
        forall|i: int| 0 <= i < shape.len() ==> shape[i] > 0,
        nested(j, numbers(v), shape),
    ensures
        json_eq(j, v),
{
    law_rectangular_input_writes_back(v, shape);
    law_nested_unique(j, v, numbers(v), shape);
}

} // verus!
