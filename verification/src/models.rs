use sha2::Digest;
use vstd::prelude::*;

use crate::error::{AppError, Status};
use crate::text::{
    chars_of, decimal, digits_value, hex_lower, is_digit, law_hex_length, lemma_decimal_digits,
    push_decimal, to_hex_lower,
};

verus! {

broadcast use vstd::seq_lib::group_to_multiset_ensures, vstd::multiset::group_multiset_axioms;

/// The extension of file name `name`, as `Path::extension` finds it: the
/// part after the last `.`, unless the name has no `.`, has it only as its
/// first character, or is `..`.
pub open spec fn extension_of(name: Seq<char>) -> Option<Seq<char>> {
    if name == seq!['.', '.'] {
        None
    } else {
        let d = last_dot(name);
        if d > 0 {
            Some(name.subrange(d + 1, name.len() as int))
        } else {
            None
        }
    }
}

/// The position of the last `.` in `s`, or -1 when there is none.
pub open spec fn last_dot(s: Seq<char>) -> int
    decreases s.len(),
{
    if s.len() == 0 {
        -1
    } else if s.last() == '.' {
        s.len() - 1
    } else {
        last_dot(s.drop_last())
    }
}

proof fn lemma_last_dot(s: Seq<char>)
    ensures
        -1 <= last_dot(s) < s.len(),
        last_dot(s) >= 0 ==> s[last_dot(s)] == '.',
        forall|k: int| last_dot(s) < k < s.len() ==> s[k] != '.',
    decreases s.len(),
{
    if s.len() > 0 && s.last() != '.' {
        lemma_last_dot(s.drop_last());
        assert forall|k: int| last_dot(s) < k < s.len() implies s[k] != '.' by {
            if k < s.len() - 1 {
                assert(s.drop_last()[k] == s[k]);
            }
        }
    }
}

/// Whether a directory entry named `file_name` is a model: its extension is
/// `tflite`.
pub fn is_model_file(file_name: &str) -> (r: bool)
    ensures
        r == (extension_of(file_name@) == Some("tflite"@)),
{
    let cs = chars_of(file_name);
    let ghost s = file_name@;
    proof {
        reveal_strlit("tflite");
        lemma_last_dot(s);
    }
    if cs.len() == 2 && cs[0] == '.' && cs[1] == '.' {
        assert(s == seq!['.', '.']);
        return false;
    }
    assert(s != seq!['.', '.']);
    let mut i = cs.len();
    while i > 0
        invariant
            cs@ == s,
            i <= cs.len(),
            forall|k: int| i <= k < cs.len() ==> cs@[k] != '.',
        ensures
            cs@ == s,
            i <= cs.len(),
            forall|k: int| i <= k < cs.len() ==> cs@[k] != '.',
            i == 0 || cs@[i - 1] == '.',
        decreases i,
    {
        if cs[i - 1] == '.' {
            break;
        }
        i = i - 1;
    }
    // `i` is one past the last dot, or 0 when there is none
    assert(last_dot(s) == i - 1) by {
        let d = last_dot(s);
        if d >= 0 {
            assert(s[d] == '.');
            assert(d < i);
        }
        if i > 0 {
            assert(!(d < i - 1));
        }
    }
    if i <= 1 {
        assert(last_dot(s) <= 0);
        return false;
    }
    let want = chars_of("tflite");
    if cs.len() - i != want.len() {
        assert(s.subrange(i as int, s.len() as int).len() != "tflite"@.len());
        return false;
    }
    let mut k: usize = 0;
    while k < want.len()
        invariant
            cs@ == s,
            s == file_name@,
            s != seq!['.', '.'],
            last_dot(s) == i - 1,
            want@ == "tflite"@,
            cs.len() - i == want.len(),
            k <= want.len(),
            1 < i <= cs.len(),
            forall|m: int| 0 <= m < k ==> cs@[i + m] == want@[m],
        decreases want.len() - k,
    {
        if cs[i + k] != want[k] {
            assert(s.subrange(i as int, s.len() as int)[k as int] != "tflite"@[k as int]);
            return false;
        }
        k = k + 1;
    }
    assert(s.subrange(i as int, s.len() as int) =~= "tflite"@);
    true
}

/// A model uploaded under a name made of a nonempty stem and `.tflite` is a
/// model file, so it is listed.
pub proof fn law_uploaded_name_is_listed(stem: Seq<char>)
    requires
        stem.len() > 0,
    ensures
        extension_of(stem + ".tflite"@) == Some("tflite"@),
{
    reveal_strlit(".tflite");
    reveal_strlit("tflite");
    let name = stem + ".tflite"@;
    let d = stem.len() as int;
    lemma_last_dot(name);
    assert(name[d] == '.');
    assert(forall|k: int| d < k < name.len() ==> name[k] != '.') by {
        assert forall|k: int| d < k < name.len() implies name[k] != '.' by {
            assert(name[k] == "tflite"@[k - d - 1]);
        }
    }
    let ld = last_dot(name);
    assert(ld == d) by {
        if ld < d {
            assert(name[d] != '.');
        }
    }
    assert(name != seq!['.', '.']) by {
        assert(name.len() != 2);
    }
    assert(name.subrange(d + 1, name.len() as int) =~= "tflite"@);
}

/// The extension of a name made of a nonempty stem, a `.` and a part with
/// no `.` is that part: a `.` earlier in the name does not count. (The name
/// `..` is the one exception: it has no extension.)
pub proof fn law_extension_after_last_dot(stem: Seq<char>, ext: Seq<char>)
    requires
        stem.len() > 0,
        !(stem == seq!['.'] && ext.len() == 0),
        forall|k: int| 0 <= k < ext.len() ==> ext[k] != '.',
    ensures
        extension_of(stem + seq!['.'] + ext) == Some(ext),
{
    let name = stem + seq!['.'] + ext;
    let d = stem.len() as int;
    lemma_last_dot(name);
    assert(name[d] == '.');
    assert forall|k: int| d < k < name.len() implies name[k] != '.' by {
        assert(name[k] == ext[k - d - 1]);
    }
    let ld = last_dot(name);
    assert(ld == d) by {
        if ld < d {
            assert(name[d] != '.');
        }
    }
    if name == seq!['.', '.'] {
        assert(name.len() == 2);
        assert(stem.len() == 1 && ext.len() == 0);
        assert(name[0] == stem[0]);
        assert(stem =~= seq!['.']);
    }
    assert(name.subrange(d + 1, name.len() as int) =~= ext);
}

/// A name with no `.` other than a leading one has no extension, so it is
/// never listed as a model: `model`, `.tflite` and `.hidden` have none.
pub proof fn law_no_extension_without_inner_dot(name: Seq<char>)
    requires
        forall|k: int| 0 < k < name.len() ==> name[k] != '.',
    ensures
        extension_of(name) is None,
{
    lemma_last_dot(name);
}

/// A model file as listed to clients: its name, size in bytes, and the
/// lowercase hexadecimal SHA-256 digest of its contents.
#[derive(Debug, PartialEq, Eq)]
pub struct ModelInfo {
    pub name: String,
    pub size: u64,
    pub sha256: String,
}

/// Lexicographic order on names, character by character (the order of
/// `str`'s comparison operators).
pub open spec fn name_le(a: Seq<char>, b: Seq<char>) -> bool
    decreases a.len(),
{
    if a.len() == 0 {
        true
    } else if b.len() == 0 {
        false
    } else if a[0] != b[0] {
        a[0] < b[0]
    } else {
        name_le(a.drop_first(), b.drop_first())
    }
}

/// Any two names are ordered one way or the other.
pub proof fn lemma_name_le_total(a: Seq<char>, b: Seq<char>)
    ensures
        name_le(a, b) || name_le(b, a),
    decreases a.len(),
{
    if a.len() > 0 && b.len() > 0 && a[0] == b[0] {
        lemma_name_le_total(a.drop_first(), b.drop_first());
    }
}

/// The name order is transitive.
pub proof fn lemma_name_le_trans(a: Seq<char>, b: Seq<char>, c: Seq<char>)
    requires
        name_le(a, b),
        name_le(b, c),
    ensures
        name_le(a, c),
    decreases a.len(),
{
    if a.len() > 0 && b.len() > 0 && c.len() > 0 && a[0] == b[0] && b[0] == c[0] {
        lemma_name_le_trans(a.drop_first(), b.drop_first(), c.drop_first());
    }
}

/// Name `a` comes strictly before name `b` in byte-wise name order: `a` is
/// a proper prefix of `b`, or at the first position where they differ the
/// character of `a` is the smaller.
pub open spec fn name_before(a: Seq<char>, b: Seq<char>) -> bool {
    ||| a.len() < b.len() && a == b.take(a.len() as int)
    ||| exists|k: int|
        #![trigger a[k], b[k]]
        0 <= k < a.len() && k < b.len() && a.take(k) == b.take(k) && a[k] < b[k]
}

/// Names that agree on their first `k` characters and differ at position
/// `k` are ordered by that character alone.
pub proof fn law_name_order_first_difference(a: Seq<char>, b: Seq<char>, k: int)
    requires
        0 <= k < a.len(),
        k < b.len(),
        a.take(k) == b.take(k),
        a[k] < b[k],
    ensures
        name_le(a, b),
        !name_le(b, a),
    decreases k,
{
    if k > 0 {
        assert(a.take(k)[0] == b.take(k)[0]);
        assert(a.take(k)[0] == a[0] && b.take(k)[0] == b[0]);
        assert(a.drop_first()[k - 1] == a[k] && b.drop_first()[k - 1] == b[k]);
        assert(a.drop_first().take(k - 1) =~= a.take(k).drop_first());
        assert(b.drop_first().take(k - 1) =~= b.take(k).drop_first());
        law_name_order_first_difference(a.drop_first(), b.drop_first(), k - 1);
    }
}

/// A name comes before every longer name it is the beginning of.
pub proof fn law_name_order_proper_prefix(a: Seq<char>, b: Seq<char>)
    requires
        a.len() < b.len(),
        a == b.take(a.len() as int),
    ensures
        name_le(a, b),
        !name_le(b, a),
    decreases a.len(),
{
    if a.len() > 0 {
        assert(a[0] == b.take(a.len() as int)[0]);
        assert(a.drop_first() =~= b.drop_first().take(a.drop_first().len() as int));
        law_name_order_proper_prefix(a.drop_first(), b.drop_first());
    }
}

/// The name order is exactly byte-wise order: `a` comes no later than `b`
/// when it is the same name or comes strictly before it.
pub proof fn law_name_le_exactly(a: Seq<char>, b: Seq<char>)
    ensures
        name_le(a, b) <==> (a == b || name_before(a, b)),
    decreases a.len(),
{
    if a.len() == 0 {
        if b.len() > 0 {
            assert(a =~= b.take(0));
        } else {
            assert(a =~= b);
        }
    } else if b.len() == 0 {
        assert(a != b);
    } else if a[0] != b[0] {
        assert(a != b);
        if a[0] < b[0] {
            assert(a.take(0) =~= b.take(0));
            assert(a[0] < b[0]);
        } else {
            if a.len() < b.len() && a == b.take(a.len() as int) {
                assert(a[0] == b.take(a.len() as int)[0]);
            }
            assert forall|k: int|
                #![trigger a[k], b[k]]
                0 <= k < a.len() && k < b.len() && a.take(k) == b.take(k) implies !(a[k]
                < b[k]) by {
                if k > 0 {
                    assert(a.take(k)[0] == b.take(k)[0]);
                }
            }
        }
    } else {
        let a1 = a.drop_first();
        let b1 = b.drop_first();
        law_name_le_exactly(a1, b1);
        assert(a == b <==> a1 == b1) by {
            if a1 == b1 {
                assert forall|i: int| 0 <= i < a.len() implies a[i] == b[i] by {
                    if i > 0 {
                        assert(a[i] == a1[i - 1] && b[i] == b1[i - 1]);
                    }
                }
                assert(a =~= b);
            }
        }
        assert(name_before(a, b) <==> name_before(a1, b1)) by {
            if a.len() < b.len() && a == b.take(a.len() as int) {
                assert(a1 =~= b1.take(a1.len() as int));
            }
            if a1.len() < b1.len() && a1 == b1.take(a1.len() as int) {
                assert forall|i: int| 0 <= i < a.len() implies a[i] == b.take(a.len() as int)[i] by {
                    if i > 0 {
                        assert(a[i] == a1[i - 1] && b[i] == b1[i - 1]);
                        assert(b1.take(a1.len() as int)[i - 1] == b1[i - 1]);
                    }
                }
                assert(a =~= b.take(a.len() as int));
            }
            if exists|k: int|
                #![trigger a[k], b[k]]
                0 <= k < a.len() && k < b.len() && a.take(k) == b.take(k) && a[k] < b[k] {
                let k = choose|k: int|
                    #![trigger a[k], b[k]]
                    0 <= k < a.len() && k < b.len() && a.take(k) == b.take(k) && a[k] < b[k];
                assert(k > 0);
                assert(a1.take(k - 1) =~= a.take(k).drop_first());
                assert(b1.take(k - 1) =~= b.take(k).drop_first());
                assert(a1[k - 1] == a[k] && b1[k - 1] == b[k]);
            }
            if exists|k: int|
                #![trigger a1[k], b1[k]]
                0 <= k < a1.len() && k < b1.len() && a1.take(k) == b1.take(k) && a1[k] < b1[k] {
                let k = choose|k: int|
                    #![trigger a1[k], b1[k]]
                    0 <= k < a1.len() && k < b1.len() && a1.take(k) == b1.take(k) && a1[k] < b1[k];
                assert(a.take(k + 1) =~= seq![a[0]] + a1.take(k));
                assert(b.take(k + 1) =~= seq![b[0]] + b1.take(k));
                assert(a[k + 1] == a1[k] && b[k + 1] == b1[k]);
            }
        }
    }
}

/// In a list sorted by name, no model's name comes strictly before the
/// name of a model listed ahead of it.
pub proof fn law_sorted_never_inverted(s: Seq<ModelInfo>)
    requires
        sorted_by_name(s),
    ensures
        forall|i: int, j: int|
            0 <= i < j < s.len() ==> !name_before(#[trigger] s[j].name@, #[trigger] s[i].name@),
{
    assert forall|i: int, j: int| 0 <= i < j < s.len() implies !name_before(
        #[trigger] s[j].name@,
        #[trigger] s[i].name@,
    ) by {
        assert(name_le(s[i].name@, s[j].name@));
        law_name_le_exactly(s[j].name@, s[i].name@);
        if name_before(s[j].name@, s[i].name@) {
            let a = s[j].name@;
            let b = s[i].name@;
            if a.len() < b.len() && a == b.take(a.len() as int) {
                law_name_order_proper_prefix(a, b);
            } else {
                let k = choose|k: int|
                    #![trigger a[k], b[k]]
                    0 <= k < a.len() && k < b.len() && a.take(k) == b.take(k) && a[k] < b[k];
                law_name_order_first_difference(a, b, k);
            }
        }
    }
}

/// Whether `a` comes no later than `b` in name order.
fn name_le_exec(a: &Vec<char>, b: &Vec<char>) -> (r: bool)
    ensures
        r == name_le(a@, b@),
{
    let mut i: usize = 0;
    assert(a@.skip(0) == a@ && b@.skip(0) == b@);
    while i < a.len() && i < b.len()
        invariant
            i <= a.len(),
            i <= b.len(),
            name_le(a@, b@) == name_le(a@.skip(i as int), b@.skip(i as int)),
        decreases a.len() - i,
    {
        if a[i] != b[i] {
            assert(a@.skip(i as int)[0] == a@[i as int]);
            assert(b@.skip(i as int)[0] == b@[i as int]);
            return a[i] < b[i];
        }
        assert(a@.skip(i as int).drop_first() == a@.skip(i + 1));
        assert(b@.skip(i as int).drop_first() == b@.skip(i + 1));
        i = i + 1;
    }
    a.len() <= b.len()
}

/// Models listed in name order.
pub open spec fn sorted_by_name(s: Seq<ModelInfo>) -> bool {
    forall|i: int, j: int| 0 <= i < j < s.len() ==> name_le(s[i].name@, s[j].name@)
}

/// Inserting `m` after every model that comes no later, and before the
/// first that comes later, keeps a sorted list sorted.
proof fn lemma_insert_keeps_order(old_r: Seq<ModelInfo>, pos: int, m: ModelInfo)
    requires
        sorted_by_name(old_r),
        0 <= pos <= old_r.len(),
        forall|k: int| 0 <= k < pos ==> name_le(old_r[k].name@, m.name@),
        pos < old_r.len() ==> !name_le(old_r[pos].name@, m.name@),
    ensures
        sorted_by_name(old_r.insert(pos, m)),
{
    let r = old_r.insert(pos, m);
    old_r.insert_ensures(pos, m);
    if pos < old_r.len() {
        lemma_name_le_total(old_r[pos].name@, m.name@);
    }
    assert forall|i: int, j: int| 0 <= i < j < r.len() implies name_le(r[i].name@, r[j].name@) by {
        if j == pos {
            assert(r[i] == old_r[i]);
        } else if i == pos {
            assert(r[j] == old_r[j - 1]);
            if j - 1 > pos {
                lemma_name_le_trans(m.name@, old_r[pos].name@, old_r[j - 1].name@);
            }
        } else if j < pos {
            assert(r[i] == old_r[i] && r[j] == old_r[j]);
        } else if i < pos {
            assert(r[i] == old_r[i] && r[j] == old_r[j - 1]);
        } else {
            assert(r[i] == old_r[i - 1] && r[j] == old_r[j - 1]);
        }
    }
}

/// Inserting `m` anywhere adds one `m` to the multiset of a list.
proof fn lemma_insert_multiset(s: Seq<ModelInfo>, pos: int, m: ModelInfo)
    requires
        0 <= pos <= s.len(),
    ensures
        s.insert(pos, m).to_multiset() == s.to_multiset().insert(m),
{
    let r = s.insert(pos, m);
    s.insert_ensures(pos, m);
    assert(r.remove(pos) =~= s);
    assert(r[pos] == m);
    assert(r.to_multiset().remove(m) =~= s.to_multiset());
    assert(r.to_multiset().count(m) > 0);
    assert(r.to_multiset() =~= s.to_multiset().insert(m));
}

/// The models of `s` named `x`, in their order in `s`.
pub open spec fn with_name(s: Seq<ModelInfo>, x: Seq<char>) -> Seq<ModelInfo>
    decreases s.len(),
{
    if s.len() == 0 {
        s
    } else {
        let w = with_name(s.drop_last(), x);
        if s.last().name@ == x {
            w.push(s.last())
        } else {
            w
        }
    }
}

proof fn lemma_with_name_add(a: Seq<ModelInfo>, b: Seq<ModelInfo>, x: Seq<char>)
    ensures
        with_name(a + b, x) == with_name(a, x) + with_name(b, x),
    decreases b.len(),
{
    if b.len() == 0 {
        assert(a + b == a);
        assert(with_name(a, x) + with_name(b, x) == with_name(a, x));
    } else {
        lemma_with_name_add(a, b.drop_last(), x);
        assert((a + b).drop_last() == a + b.drop_last());
        assert((a + b).last() == b.last());
    }
}

proof fn lemma_with_name_push(s: Seq<ModelInfo>, m: ModelInfo, x: Seq<char>)
    ensures
        with_name(s.push(m), x) == (if m.name@ == x {
            with_name(s, x).push(m)
        } else {
            with_name(s, x)
        }),
{
    assert(s.push(m).drop_last() == s);
}

/// Every name comes no later than itself.
proof fn lemma_name_le_refl(a: Seq<char>)
    ensures
        name_le(a, a),
    decreases a.len(),
{
    if a.len() > 0 {
        lemma_name_le_refl(a.drop_first());
    }
}

proof fn lemma_with_name_none(s: Seq<ModelInfo>, x: Seq<char>)
    requires
        forall|k: int| 0 <= k < s.len() ==> s[k].name@ != x,
    ensures
        with_name(s, x) == Seq::<ModelInfo>::empty(),
    decreases s.len(),
{
    if s.len() > 0 {
        lemma_with_name_none(s.drop_last(), x);
    }
}

/// Inserting `m` after every model that comes no later, and before the
/// first that comes later, places it after every model of the same name:
/// for each name, the models of that name come as if `m` were appended.
proof fn lemma_insert_keeps_ties(old_r: Seq<ModelInfo>, pos: int, m: ModelInfo)
    requires
        sorted_by_name(old_r),
        0 <= pos <= old_r.len(),
        pos < old_r.len() ==> !name_le(old_r[pos].name@, m.name@),
    ensures
        forall|x: Seq<char>| #[trigger] with_name(old_r.insert(pos, m), x) == with_name(old_r.push(m), x),
{
    let a = old_r.take(pos);
    let b = old_r.skip(pos);
    assert(old_r.insert(pos, m) == a + seq![m] + b);
    assert(old_r.push(m) == a + b + seq![m]);
    assert(old_r == a + b);
    assert forall|x: Seq<char>| #[trigger] with_name(old_r.insert(pos, m), x) == with_name(old_r.push(m), x) by {
        lemma_with_name_add(a + seq![m], b, x);
        lemma_with_name_add(a, seq![m], x);
        lemma_with_name_add(a + b, seq![m], x);
        lemma_with_name_add(a, b, x);
        if m.name@ == x {
            assert forall|k: int| 0 <= k < b.len() implies b[k].name@ != x by {
                assert(b[k] == old_r[pos + k]);
                if b[k].name@ == x {
                    if k == 0 {
                        lemma_name_le_refl(m.name@);
                    } else {
                        assert(name_le(old_r[pos].name@, old_r[pos + k].name@));
                    }
                }
            }
            lemma_with_name_none(b, x);
        } else {
            lemma_with_name_push(Seq::<ModelInfo>::empty(), m, x);
            assert(Seq::<ModelInfo>::empty().push(m) == seq![m]);
            assert(with_name(Seq::<ModelInfo>::empty(), x) == Seq::<ModelInfo>::empty());
        }
    }
}

/// The models in name order: the same models, each as often as before,
/// each no later in name order than the next, and models of equal name in
/// their original order.
pub fn sort_models(models: Vec<ModelInfo>) -> (r: Vec<ModelInfo>)
    ensures
        r@.to_multiset() == models@.to_multiset(),
        sorted_by_name(r@),
        forall|i: int, j: int|
            0 <= i < j < r@.len() ==> !name_before(#[trigger] r@[j].name@, #[trigger] r@[i].name@),
        forall|x: Seq<char>| #[trigger] with_name(r@, x) == with_name(models@, x),
{
    let ghost orig = models@;
    let mut r: Vec<ModelInfo> = Vec::new();
    for m in it: models.into_iter()
        invariant
            it.seq() == orig,
            r@.to_multiset() == orig.take(it.index() as int).to_multiset(),
            sorted_by_name(r@),
            forall|x: Seq<char>| #[trigger] with_name(r@, x) == with_name(
                orig.take(it.index() as int),
                x,
            ),
    {
        let key = chars_of(m.name.as_str());
        let mut pos: usize = 0;
        while pos < r.len()
            invariant
                pos <= r.len(),
                key@ == m.name@,
                forall|k: int| 0 <= k < pos ==> name_le(r@[k].name@, key@),
            ensures
                pos <= r.len(),
                forall|k: int| 0 <= k < pos ==> name_le(r@[k].name@, key@),
                pos < r.len() ==> !name_le(r@[pos as int].name@, key@),
            decreases r.len() - pos,
        {
            let other = chars_of(r[pos].name.as_str());
            if !name_le_exec(&other, &key) {
                break;
            }
            pos = pos + 1;
        }
        let ghost old_r = r@;
        proof {
            assert(orig.take(it.index() + 1) == orig.take(it.index() as int).push(m));
        }
        r.insert(pos, m);
        proof {
            lemma_insert_keeps_order(old_r, pos as int, m);
            lemma_insert_multiset(old_r, pos as int, m);
            lemma_insert_keeps_ties(old_r, pos as int, m);
            assert forall|x: Seq<char>| #[trigger] with_name(r@, x) == with_name(
                orig.take(it.index() + 1),
                x,
            ) by {
                lemma_with_name_push(old_r, m, x);
                lemma_with_name_push(orig.take(it.index() as int), m, x);
            }
        }
    }
    proof {
        assert(orig.take(orig.len() as int) == orig);
        law_sorted_never_inverted(r@);
    }
    r
}

/// The SHA-256 digest of `data` (what `sha2::Sha256::digest` computes).
pub uninterp spec fn sha256_of(data: Seq<u8>) -> Seq<u8>;

/// `sha2::Sha256::digest`: the SHA-256 digest of `data`. The contract names
/// the digest `sha256_of(data)` and states its length, 32 bytes (the
/// `OutputSize` of `Sha256`); that the bytes are the SHA-256 function is
/// taken from the crate, not proved.
#[verifier::external_body]
fn sha256_digest(data: &[u8]) -> (d: Vec<u8>)
    ensures
        d@ == sha256_of(data@),
        d@.len() == 32,
{
    sha2::Sha256::digest(data).to_vec()
}

/// The lowercase hexadecimal SHA-256 digest of a file's contents.
pub fn compute_sha256(contents: &[u8]) -> (s: String)
    ensures
        s@ == hex_lower(sha256_of(contents@)),
        s@.len() == 64,
{
    let d = sha256_digest(contents);
    proof {
        law_hex_length(d@);
    }
    to_hex_lower(d.as_slice())
}

/// Refuses an uploaded model file that is empty.
pub fn check_upload(body_len: usize) -> (r: Result<(), AppError>)
    ensures
        r is Ok <==> body_len > 0,
        r matches Err(e) ==> e.status == Status::BadRequest && e.detail@ == "Empty model file"@,
{
    if body_len == 0 {
        Err(AppError::bad_request(String::from_str("Empty model file")))
    } else {
        Ok(())
    }
}

/// Freshness keys tell files apart: two keys are equal only when both the
/// modification-time texts and the sizes are, so files of different length
/// always have different keys.
pub proof fn law_cache_key_distinct(m1: Seq<char>, n1: u64, m2: Seq<char>, n2: u64)
    requires
        m1 + "-"@ + decimal(n1 as nat) == m2 + "-"@ + decimal(n2 as nat),
    ensures
        n1 == n2,
        m1 == m2,
{
    reveal_strlit("-");
    let d1 = decimal(n1 as nat);
    let d2 = decimal(n2 as nat);
    lemma_decimal_digits(n1 as nat);
    lemma_decimal_digits(n2 as nat);
    let k = m1 + "-"@ + d1;
    let k2 = m2 + "-"@ + d2;
    assert("-"@.len() == 1);
    assert((m1 + "-"@).len() == m1.len() + 1);
    assert((m2 + "-"@).len() == m2.len() + 1);
    assert(k == k2);
    assert(k.len() == m1.len() + 1 + d1.len());
    assert(k2.len() == m2.len() + 1 + d2.len());
    assert(k[m1.len() as int] == '-');
    assert(k2[m2.len() as int] == '-');
    if d1.len() < d2.len() {
        let p = m1.len() as int;
        assert(p >= (m2 + "-"@).len());
        assert(k2[p] == d2[p - (m2 + "-"@).len()]);
        assert(is_digit(d2[p - m2.len() - 1]));
        assert(false);
    }
    if d2.len() < d1.len() {
        let p = m2.len() as int;
        assert(p >= (m1 + "-"@).len());
        assert(k[p] == d1[p - (m1 + "-"@).len()]);
        assert(is_digit(d1[p - m1.len() - 1]));
        assert(false);
    }
    assert(d1 =~= k.subrange(k.len() - d1.len(), k.len() as int));
    assert(d2 =~= k2.subrange(k2.len() - d2.len(), k2.len() as int));
    assert(m1 =~= k.subrange(0, m1.len() as int));
    assert(m2 =~= k2.subrange(0, m2.len() as int));
}

/// The freshness key of a model file: its modification time as the
/// platform's debug text shows it, a `-`, and its size in decimal.
pub fn cache_key(modified: &str, size: u64) -> (k: String)
    ensures
        k@ == modified@ + "-"@ + decimal(size as nat),
{
    let mut k = String::from_str(modified);
    k.append("-");
    push_decimal(&mut k, size);
    k
}

} // verus!
