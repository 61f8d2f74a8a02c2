use vstd::prelude::*;

verus! {

/// How many interpreters the cache holds at most.
pub const MAX_CACHE_SIZE: usize = 3;

/// A model path, as the sequence of its components' bytes.
pub type PathKey = Seq<Seq<u8>>;

/// One cached interpreter: the model's path, the freshness key of the file
/// it was loaded from, and the loaded plan.
pub type Slot<V> = (PathKey, Seq<char>, V);

/// Whether two byte strings are equal.
pub fn bytes_eq(a: &Vec<u8>, b: &Vec<u8>) -> (r: bool)
    ensures
        r == (a@ == b@),
{
    if a.len() != b.len() {
        return false;
    }
    for i in 0..a.len()
        invariant
            a@.len() == b@.len(),
            forall|j: int| 0 <= j < i ==> a@[j] == b@[j],
    {
        if a[i] != b[i] {
            return false;
        }
    }
    assert(a@ =~= b@);
    true
}

/// Whether two paths have the same components.
pub fn path_eq(a: &Vec<Vec<u8>>, b: &Vec<Vec<u8>>) -> (r: bool)
    ensures
        r == (a.deep_view() == b.deep_view()),
{
    if a.len() != b.len() {
        assert(a.deep_view().len() != b.deep_view().len());
        return false;
    }
    for i in 0..a.len()
        invariant
            a@.len() == b@.len(),
            forall|j: int| 0 <= j < i ==> a@[j]@ == b@[j]@,
    {
        if !bytes_eq(&a[i], &b[i]) {
            assert(a.deep_view()[i as int] == a@[i as int].deep_view());
            assert(a@[i as int].deep_view() =~= a@[i as int]@);
            assert(b@[i as int].deep_view() =~= b@[i as int]@);
            assert(a.deep_view()[i as int] != b.deep_view()[i as int]);
            return false;
        }
    }
    assert forall|j: int| 0 <= j < a.deep_view().len() implies a.deep_view()[j] == b.deep_view()[j] by {
        assert(a@[j].deep_view() =~= a@[j]@);
        assert(b@[j].deep_view() =~= b@[j]@);
    }
    assert(a.deep_view() =~= b.deep_view());
    true
}

/// No two slots hold the same path.
pub open spec fn paths_distinct<V>(s: Seq<Slot<V>>) -> bool {
    forall|i: int, j: int| 0 <= i < s.len() && 0 <= j < s.len() && i != j ==> s[i].0 != s[j].0
}

/// The cache's invariant: distinct paths, and no more than the capacity.
pub open spec fn cache_wf<V>(s: Seq<Slot<V>>) -> bool {
    &&& paths_distinct(s)
    &&& s.len() <= MAX_CACHE_SIZE
}

/// Whether some slot holds path `p`.
pub open spec fn holds<V>(s: Seq<Slot<V>>, p: PathKey) -> bool {
    exists|i: int| 0 <= i < s.len() && s[i].0 == p
}

/// The position of the slot holding `p` (meaningful when `holds(s, p)`).
pub open spec fn slot_of<V>(s: Seq<Slot<V>>, p: PathKey) -> int {
    choose|i: int| 0 <= i < s.len() && s[i].0 == p
}

/// The freshness key and plan cached for `p`, if any.
pub open spec fn entry_of<V>(s: Seq<Slot<V>>, p: PathKey) -> Option<(Seq<char>, V)> {
    if holds(s, p) {
        Some((s[slot_of(s, p)].1, s[slot_of(s, p)].2))
    } else {
        None
    }
}

/// The plan cached for `p`, provided it was cached under freshness key `k`.
pub open spec fn lookup_spec<V>(s: Seq<Slot<V>>, p: PathKey, k: Seq<char>) -> Option<V> {
    match entry_of(s, p) {
        Some((k2, v)) => if k2 == k {
            Some(v)
        } else {
            None
        },
        None => None,
    }
}

/// Whether inserting `p` makes room by evicting a slot: the cache is full
/// and does not hold `p` yet.
pub open spec fn evicts<V>(s: Seq<Slot<V>>, p: PathKey) -> bool {
    s.len() >= MAX_CACHE_SIZE && !holds(s, p)
}

/// The slots after caching `v` for `p` under key `k`: when the cache is full
/// and does not hold `p`, the oldest slot is evicted; then the slot of `p` is
/// replaced in place, or a new slot is appended.
pub open spec fn spec_insert<V>(s: Seq<Slot<V>>, p: PathKey, k: Seq<char>, v: V) -> Seq<Slot<V>> {
    let base = if evicts(s, p) {
        s.drop_first()
    } else {
        s
    };
    if holds(base, p) {
        base.update(slot_of(base, p), (p, k, v))
    } else {
        base.push((p, k, v))
    }
}

/// The slots after dropping the one that holds `p`, if any.
pub open spec fn spec_remove<V>(s: Seq<Slot<V>>, p: PathKey) -> Seq<Slot<V>> {
    if holds(s, p) {
        s.remove(slot_of(s, p))
    } else {
        s
    }
}

/// With distinct paths, the slot holding `p` is the only one that does.
pub proof fn lemma_slot_unique<V>(s: Seq<Slot<V>>, p: PathKey, i: int)
    requires
        paths_distinct(s),
        0 <= i < s.len(),
        s[i].0 == p,
    ensures
        holds(s, p),
        slot_of(s, p) == i,
{
}

struct CachedModel<V> {
    path: Vec<Vec<u8>>,
    key: String,
    plan: V,
}

/// The slot a cached model stands for.
spec fn slot<V>(e: CachedModel<V>) -> Slot<V> {
    (e.path.deep_view(), e.key@, e.plan)
}

/// The slots that a list of cached models stands for.
spec fn slots<V>(v: Seq<CachedModel<V>>) -> Seq<Slot<V>> {
    Seq::new(v.len(), |i: int| slot(v[i]))
}

proof fn lemma_slots_push<V>(v: Seq<CachedModel<V>>, e: CachedModel<V>)
    ensures
        slots(v.push(e)) == slots(v).push(slot(e)),
{
    assert(slots(v.push(e)) =~= slots(v).push(slot(e)));
}

proof fn lemma_slots_update<V>(v: Seq<CachedModel<V>>, i: int, e: CachedModel<V>)
    requires
        0 <= i < v.len(),
    ensures
        slots(v.update(i, e)) == slots(v).update(i, slot(e)),
{
    assert(slots(v.update(i, e)) =~= slots(v).update(i, slot(e)));
}

proof fn lemma_slots_remove<V>(v: Seq<CachedModel<V>>, i: int)
    requires
        0 <= i < v.len(),
    ensures
        slots(v.remove(i)) == slots(v).remove(i),
{
    assert(slots(v.remove(i)) =~= slots(v).remove(i));
}

/// The position of the entry for `path` in `entries`, if there is one.
fn find_in<V>(entries: &Vec<CachedModel<V>>, path: &Vec<Vec<u8>>) -> (r: Option<usize>)
    requires
        paths_distinct(slots(entries@)),
    ensures
        r is Some <==> holds(slots(entries@), path.deep_view()),
        r matches Some(i) ==> i == slot_of(slots(entries@), path.deep_view()) && i < entries@.len(),
{
    let ghost s = slots(entries@);
    let ghost p = path.deep_view();
    for i in 0..entries.len()
        invariant
            s == slots(entries@),
            paths_distinct(s),
            p == path.deep_view(),
            s.len() == entries@.len(),
            forall|j: int| 0 <= j < i ==> s[j].0 != p,
    {
        assert(s[i as int].0 == entries@[i as int].path.deep_view());
        if path_eq(&entries[i].path, path) {
            proof {
                lemma_slot_unique(s, p, i as int);
            }
            return Some(i);
        }
    }
    None
}

/// The interpreters loaded so far, by model path, at most `MAX_CACHE_SIZE`
/// of them.
pub struct ModelCache<V> {
    entries: Vec<CachedModel<V>>,
}

impl<V> View for ModelCache<V> {
    type V = Seq<Slot<V>>;

    closed spec fn view(&self) -> Seq<Slot<V>> {
        slots(self.entries@)
    }
}

impl<V> ModelCache<V> {
    #[verifier::type_invariant]
    closed spec fn inv(&self) -> bool {
        cache_wf(self@)
    }

    /// An empty cache.
    pub fn new() -> (c: Self)
        ensures
            c@ == Seq::<Slot<V>>::empty(),
            cache_wf(c@),
    {
        let c = ModelCache { entries: Vec::new() };
        assert(c@ =~= Seq::<Slot<V>>::empty());
        c
    }

    /// The number of cached interpreters.
    pub fn len(&self) -> (n: usize)
        ensures
            n == self@.len(),
            n <= MAX_CACHE_SIZE,
            cache_wf(self@),
    {
        proof {
            use_type_invariant(self);
        }
        self.entries.len()
    }

    /// The position of the entry for `path`, if there is one.
    fn find(&self, path: &Vec<Vec<u8>>) -> (r: Option<usize>)
        ensures
            r is Some <==> holds(self@, path.deep_view()),
            r matches Some(i) ==> i == slot_of(self@, path.deep_view()) && i < self@.len(),
    {
        proof {
            use_type_invariant(self);
        }
        find_in(&self.entries, path)
    }

    /// Whether an entry for `path` is cached, whatever its freshness key.
    pub fn contains(&self, path: &Vec<Vec<u8>>) -> (r: bool)
        ensures
            r == holds(self@, path.deep_view()),
            cache_wf(self@),
    {
        proof {
            use_type_invariant(self);
        }
        self.find(path).is_some()
    }

    /// The plan cached for `path`, provided it was loaded from a file whose
    /// freshness key is `key`: a cache hit.
    pub fn lookup(&self, path: &Vec<Vec<u8>>, key: &String) -> (r: Option<&V>)
        ensures
            r is Some <==> lookup_spec(self@, path.deep_view(), key@) is Some,
            r matches Some(v) ==> *v == lookup_spec(self@, path.deep_view(), key@)->0,
            cache_wf(self@),
    {
        proof {
            use_type_invariant(self);
        }
        match self.find(path) {
            Some(i) => {
                let e = &self.entries[i];
                assert(self@[i as int] == slot(*e));
                if e.key == *key {
                    Some(&e.plan)
                } else {
                    None
                }
            },
            None => None,
        }
    }
}

impl<V> ModelCache<V> {
    /// Caches `plan` for `path` under freshness key `key`. When the cache is
    /// full and holds no entry for `path`, one entry (the oldest) is evicted
    /// first; an existing entry for `path` is replaced.
    pub fn insert(&mut self, path: Vec<Vec<u8>>, key: String, plan: V)
        ensures
            final(self)@ == spec_insert(old(self)@, path.deep_view(), key@, plan),
            cache_wf(old(self)@),
            cache_wf(final(self)@),
    {
        proof {
            use_type_invariant(&*self);
        }
        let ghost s0 = self@;
        let ghost p = path.deep_view();
        let mut entries: Vec<CachedModel<V>> = Vec::new();
        std::mem::swap(&mut entries, &mut self.entries);
        assert(slots(entries@) == s0);
        if entries.len() >= MAX_CACHE_SIZE && find_in(&entries, &path).is_none() {
            proof {
                lemma_slots_remove(entries@, 0);
                assert(s0.remove(0) =~= s0.drop_first());
            }
            entries.remove(0);
        }
        let ghost base = slots(entries@);
        assert(base == (if evicts(s0, p) { s0.drop_first() } else { s0 }));
        assert(paths_distinct(base));
        let pos = find_in(&entries, &path);
        let e = CachedModel { path, key, plan };
        assert(slot(e) == (p, key@, plan));
        match pos {
            Some(i) => {
                proof {
                    lemma_slots_update(entries@, i as int, e);
                }
                entries.set(i, e);
            },
            None => {
                proof {
                    lemma_slots_push(entries@, e);
                }
                entries.push(e);
            },
        }
        proof {
            law_insert_wf(s0, p, key@, plan);
        }
        self.entries = entries;
    }

    /// Drops the entry for `path`, if there is one.
    pub fn remove(&mut self, path: &Vec<Vec<u8>>)
        ensures
            final(self)@ == spec_remove(old(self)@, path.deep_view()),
            cache_wf(old(self)@),
            cache_wf(final(self)@),
    {
        proof {
            use_type_invariant(&*self);
        }
        let ghost s0 = self@;
        let ghost p = path.deep_view();
        let mut entries: Vec<CachedModel<V>> = Vec::new();
        std::mem::swap(&mut entries, &mut self.entries);
        assert(slots(entries@) == s0);
        match find_in(&entries, path) {
            Some(i) => {
                proof {
                    lemma_slots_remove(entries@, i as int);
                }
                entries.remove(i);
            },
            None => {},
        }
        proof {
            law_remove_wf(s0, p);
        }
        self.entries = entries;
    }
}

/// Inserting into a well-formed cache leaves it well formed: paths stay
/// distinct and the cache never holds more than `MAX_CACHE_SIZE` entries.
pub proof fn law_insert_wf<V>(s: Seq<Slot<V>>, p: PathKey, k: Seq<char>, v: V)
    requires
        cache_wf(s),
    ensures
        cache_wf(spec_insert(s, p, k, v)),
{
    let base = if evicts(s, p) {
        s.drop_first()
    } else {
        s
    };
    assert(paths_distinct(base)) by {
        if evicts(s, p) {
            assert forall|i: int, j: int|
                0 <= i < base.len() && 0 <= j < base.len() && i != j implies base[i].0
                != base[j].0 by {
                assert(base[i] == s[i + 1]);
                assert(base[j] == s[j + 1]);
            }
        }
    }
    let r = spec_insert(s, p, k, v);
    if holds(base, p) {
        let i = slot_of(base, p);
        assert forall|a: int, b: int| 0 <= a < r.len() && 0 <= b < r.len() && a != b implies r[a].0
            != r[b].0 by {
            if a != i && b != i {
                assert(r[a] == base[a] && r[b] == base[b]);
            } else if a == i {
                assert(r[b] == base[b]);
            } else {
                assert(r[a] == base[a]);
            }
        }
    } else {
        assert forall|a: int, b: int| 0 <= a < r.len() && 0 <= b < r.len() && a != b implies r[a].0
            != r[b].0 by {
            if a < base.len() && b < base.len() {
                assert(r[a] == base[a] && r[b] == base[b]);
            } else if a < base.len() {
                assert(r[a] == base[a]);
            } else {
                assert(r[b] == base[b]);
            }
        }
    }
}

/// Removing from a well-formed cache leaves it well formed.
pub proof fn law_remove_wf<V>(s: Seq<Slot<V>>, p: PathKey)
    requires
        cache_wf(s),
    ensures
        cache_wf(spec_remove(s, p)),
{
    if holds(s, p) {
        let i = slot_of(s, p);
        let r = spec_remove(s, p);
        assert forall|a: int, b: int| 0 <= a < r.len() && 0 <= b < r.len() && a != b implies r[a].0
            != r[b].0 by {
            let a2 = if a < i { a } else { a + 1 };
            let b2 = if b < i { b } else { b + 1 };
            assert(r[a] == s[a2] && r[b] == s[b2]);
        }
    }
}

/// After caching `v` for `p` under key `k`, the cache answers a lookup of
/// `p` with key `k` by `v`, and a lookup of `p` with any other key misses.
pub proof fn law_insert_then_lookup<V>(s: Seq<Slot<V>>, p: PathKey, k: Seq<char>, v: V, k2: Seq<char>)
    requires
        cache_wf(s),
    ensures
        entry_of(spec_insert(s, p, k, v), p) == Some((k, v)),
        lookup_spec(spec_insert(s, p, k, v), p, k) == Some(v),
        k2 != k ==> lookup_spec(spec_insert(s, p, k, v), p, k2) is None,
{
    law_insert_wf(s, p, k, v);
    let base = if evicts(s, p) {
        s.drop_first()
    } else {
        s
    };
    let r = spec_insert(s, p, k, v);
    if holds(base, p) {
        let i = slot_of(base, p);
        lemma_slot_unique(r, p, i);
    } else {
        lemma_slot_unique(r, p, base.len() as int);
    }
}

/// A cache hit is never stale: a lookup of `p` under freshness key `k`
/// answers only with the plan cached for `p` under that very key.
pub proof fn law_hit_is_current<V>(s: Seq<Slot<V>>, p: PathKey, k: Seq<char>)
    ensures
        lookup_spec(s, p, k) matches Some(v) ==> entry_of(s, p) == Some((k, v)),
{
}

/// Caching `p` leaves every other path's entry as it was, except the entry
/// evicted to make room, which is gone.
pub proof fn law_insert_keeps_others<V>(s: Seq<Slot<V>>, p: PathKey, k: Seq<char>, v: V, q: PathKey)
    requires
        cache_wf(s),
        q != p,
    ensures
        entry_of(spec_insert(s, p, k, v), q) == (if evicts(s, p) && s[0].0 == q {
            None
        } else {
            entry_of(s, q)
        }),
{
    law_insert_wf(s, p, k, v);
    let base = if evicts(s, p) {
        s.drop_first()
    } else {
        s
    };
    let r = spec_insert(s, p, k, v);
    if holds(s, q) {
        let j = slot_of(s, q);
        if evicts(s, p) && j == 0 {
            assert forall|a: int| 0 <= a < r.len() implies r[a].0 != q by {
                if a < base.len() {
                    assert(r[a] == s[a + 1] || r[a].0 == p);
                    if r[a] == s[a + 1] {
                        assert(s[a + 1].0 != s[0].0);
                    }
                }
            }
        } else {
            let jb = if evicts(s, p) { j - 1 } else { j };
            assert(base[jb] == s[j]);
            if holds(base, p) {
                let i = slot_of(base, p);
                assert(i != jb);
                assert(r[jb] == s[j]);
            } else {
                assert(r[jb] == s[j]);
            }
            lemma_slot_unique(r, q, jb);
        }
    } else {
        assert forall|a: int| 0 <= a < r.len() implies r[a].0 != q by {
            if holds(base, p) {
                if a != slot_of(base, p) {
                    assert(r[a] == base[a]);
                    if evicts(s, p) {
                        assert(base[a] == s[a + 1]);
                    }
                }
            } else if a < base.len() {
                assert(r[a] == base[a]);
                if evicts(s, p) {
                    assert(base[a] == s[a + 1]);
                }
            }
        }
    }
}

/// Interpreters are cached for up to three models: a cache never holds
/// more than three after an insert, and while it holds fewer than three an
/// insert of a new path adds a slot and keeps every other path's entry.
pub proof fn law_cache_holds_up_to_three<V>(s: Seq<Slot<V>>, p: PathKey, k: Seq<char>, v: V, q: PathKey)
    requires
        cache_wf(s),
        q != p,
    ensures
        spec_insert(s, p, k, v).len() <= 3,
        s.len() < 3 ==> entry_of(spec_insert(s, p, k, v), q) == entry_of(s, q),
        s.len() < 3 && !holds(s, p) ==> spec_insert(s, p, k, v).len() == s.len() + 1,
{
    law_insert_wf(s, p, k, v);
    law_insert_keeps_others(s, p, k, v, q);
}

/// After dropping `p`, a lookup of `p` misses and every other path's entry
/// is as it was.
pub proof fn law_remove_then_lookup<V>(s: Seq<Slot<V>>, p: PathKey, q: PathKey)
    requires
        cache_wf(s),
    ensures
        entry_of(spec_remove(s, p), p) is None,
        q != p ==> entry_of(spec_remove(s, p), q) == entry_of(s, q),
{
    law_remove_wf(s, p);
    let r = spec_remove(s, p);
    if holds(s, p) {
        let i = slot_of(s, p);
        assert forall|a: int| 0 <= a < r.len() implies r[a].0 != p by {
            let a2 = if a < i { a } else { a + 1 };
            assert(r[a] == s[a2]);
        }
        if q != p && holds(s, q) {
            let j = slot_of(s, q);
            let jr = if j < i { j } else { j - 1 };
            assert(r[jr] == s[j]);
            lemma_slot_unique(r, q, jr);
        }
        if q != p && !holds(s, q) {
            assert forall|a: int| 0 <= a < r.len() implies r[a].0 != q by {
                let a2 = if a < i { a } else { a + 1 };
                assert(r[a] == s[a2]);
            }
        }
    }
}


/// An operation on the cache: caching a plan for a path under a freshness
/// key (a load), or dropping a path (an upload or a delete).
pub enum CacheOp<V> {
    Insert(PathKey, Seq<char>, V),
    Remove(PathKey),
}

/// The slots after applying `ops` in order to `s`.
pub open spec fn run_ops<V>(s: Seq<Slot<V>>, ops: Seq<CacheOp<V>>) -> Seq<Slot<V>>
    decreases ops.len(),
{
    if ops.len() == 0 {
        s
    } else {
        match ops.last() {
            CacheOp::Insert(p, k, v) => spec_insert(run_ops(s, ops.drop_last()), p, k, v),
            CacheOp::Remove(p) => spec_remove(run_ops(s, ops.drop_last()), p),
        }
    }
}

/// Whether operation `op` concerns path `p`.
pub open spec fn touches<V>(op: CacheOp<V>, p: PathKey) -> bool {
    match op {
        CacheOp::Insert(q, _, _) => q == p,
        CacheOp::Remove(q) => q == p,
    }
}

/// A stale plan is never served: after any sequence of loads, uploads and
/// deletes on an empty cache, a lookup of `p` under freshness key `k` hits
/// only with the plan of the last operation on `p`, which must be a load of
/// `p` under that very key `k`. A plan loaded under an older key of the
/// file, or dropped by an upload or a delete, is never answered.
pub proof fn law_no_stale_hit<V>(ops: Seq<CacheOp<V>>, p: PathKey, k: Seq<char>)
    ensures
        cache_wf(run_ops(Seq::<Slot<V>>::empty(), ops)),
        lookup_spec(run_ops(Seq::<Slot<V>>::empty(), ops), p, k) matches Some(v) ==> exists|i: int|
            0 <= i < ops.len() && #[trigger] ops[i] == CacheOp::Insert(p, k, v) && forall|j: int|
                i < j < ops.len() ==> !touches(#[trigger] ops[j], p),
    decreases ops.len(),
{
    let e = Seq::<Slot<V>>::empty();
    if ops.len() > 0 {
        law_no_stale_hit(ops.drop_last(), p, k);
        let s0 = run_ops(e, ops.drop_last());
        let n = ops.len() - 1;
        match ops.last() {
            CacheOp::Insert(q, k2, v2) => {
                law_insert_wf(s0, q, k2, v2);
                if q == p {
                    law_insert_then_lookup(s0, q, k2, v2, k);
                    if k2 == k {
                        assert(ops[n] == CacheOp::Insert(p, k, v2));
                    }
                } else {
                    law_insert_keeps_others(s0, q, k2, v2, p);
                    if lookup_spec(run_ops(e, ops), p, k) is Some {
                        let v = lookup_spec(run_ops(e, ops), p, k)->0;
                        assert(lookup_spec(s0, p, k) == Some(v));
                        let i = choose|i: int|
                            0 <= i < ops.drop_last().len() && #[trigger] ops.drop_last()[i]
                                == CacheOp::Insert(p, k, v) && forall|j: int|
                                i < j < ops.drop_last().len() ==> !touches(
                                    #[trigger] ops.drop_last()[j],
                                    p,
                                );
                        assert(ops[i] == CacheOp::Insert(p, k, v));
                        assert forall|j: int| i < j < ops.len() implies !touches(
                            #[trigger] ops[j],
                            p,
                        ) by {
                            if j < n {
                                assert(ops[j] == ops.drop_last()[j]);
                            }
                        }
                    }
                }
            },
            CacheOp::Remove(q) => {
                law_remove_wf(s0, q);
                law_remove_then_lookup(s0, q, p);
                if q != p && lookup_spec(run_ops(e, ops), p, k) is Some {
                    let v = lookup_spec(run_ops(e, ops), p, k)->0;
                    assert(lookup_spec(s0, p, k) == Some(v));
                    let i = choose|i: int|
                        0 <= i < ops.drop_last().len() && #[trigger] ops.drop_last()[i]
                            == CacheOp::Insert(p, k, v) && forall|j: int|
                            i < j < ops.drop_last().len() ==> !touches(
                                #[trigger] ops.drop_last()[j],
                                p,
                            );
                    assert(ops[i] == CacheOp::Insert(p, k, v));
                    assert forall|j: int| i < j < ops.len() implies !touches(#[trigger] ops[j], p) by {
                        if j < n {
                            assert(ops[j] == ops.drop_last()[j]);
                        }
                    }
                }
            },
        }
    }
}

} // verus!
