//! A map that remembers insertion order.
//!
//! The keys live in an [`indexmap::IndexMap`] that sends each to its position; the values live in
//! a vector in the same order. The contracts of the `IndexMap` methods are stated over
//! [`entries`], the pairs a map holds, in their order.

use indexmap::IndexMap;
use vstd::prelude::*;

verus! {

// ----------------------------------------------------------------------- the outside map

/// `indexmap::IndexMap`, opaque.
#[verifier::external_type_specification]
#[verifier::external_body]
#[verifier::reject_recursive_types(K)]
#[verifier::reject_recursive_types(V)]
#[verifier::reject_recursive_types(S)]
pub struct ExIndexMap<K, V, S>(IndexMap<K, V, S>);

/// The pairs an `IndexMap` holds, in its order.
pub uninterp spec fn entries(m: IndexMap<String, usize>) -> Seq<(Seq<char>, usize)>;

/// The position of the first pair under `key`, or the length when there is none.
pub open spec fn find_key<T>(s: Seq<(Seq<char>, T)>, key: Seq<char>) -> nat
    decreases s.len(),
{
    if s.len() == 0 || s[0].0 == key {
        0
    } else {
        1 + find_key(s.drop_first(), key)
    }
}

/// Whether there is a pair under `key`.
pub open spec fn has_key<T>(s: Seq<(Seq<char>, T)>, key: Seq<char>) -> bool {
    find_key(s, key) < s.len()
}

/// What is under `key`, if anything.
pub open spec fn lookup<T>(s: Seq<(Seq<char>, T)>, key: Seq<char>) -> Option<T> {
    if has_key(s, key) {
        Some(s[find_key(s, key) as int].1)
    } else {
        None
    }
}

/// `s` with `v` under `key`: in the place `key` already has, or else at the end.
pub open spec fn put<T>(s: Seq<(Seq<char>, T)>, key: Seq<char>, v: T) -> Seq<(Seq<char>, T)> {
    if has_key(s, key) {
        s.update(find_key(s, key) as int, (key, v))
    } else {
        s.push((key, v))
    }
}

/// `s` without what is under `key`; the rest keeps its order.
pub open spec fn take_out<T>(s: Seq<(Seq<char>, T)>, key: Seq<char>) -> Seq<(Seq<char>, T)> {
    if has_key(s, key) {
        s.remove(find_key(s, key) as int)
    } else {
        s
    }
}

/// The keys, in order.
pub open spec fn keys_of<T>(s: Seq<(Seq<char>, T)>) -> Seq<Seq<char>> {
    Seq::new(s.len(), |i: int| s[i].0)
}

/// Whether no key occurs twice.
pub open spec fn distinct_keys<T>(s: Seq<(Seq<char>, T)>) -> bool {
    forall|i: int, j: int| 0 <= i < j < s.len() ==> (#[trigger] s[i]).0 != (#[trigger] s[j]).0
}

/// `IndexMap::new`: a map without pairs.
#[verifier::external_body]
pub(crate) fn index_new() -> (m: IndexMap<String, usize>)
    ensures
        entries(m) == Seq::<(Seq<char>, usize)>::empty(),
{
    IndexMap::new()
}

/// `IndexMap::len`: the number of pairs.
#[verifier::external_body]
pub(crate) fn index_len(m: &IndexMap<String, usize>) -> (r: usize)
    ensures
        r == entries(*m).len(),
{
    m.len()
}

/// `IndexMap::get`: what is under a key.
#[verifier::external_body]
pub(crate) fn index_get(m: &IndexMap<String, usize>, key: &str) -> (r: Option<usize>)
    ensures
        r == lookup(entries(*m), key@),
{
    m.get(key).copied()
}

/// `IndexMap::get_index`: the pair at a position, if the position is in range.
#[verifier::external_body]
pub(crate) fn index_at(m: &IndexMap<String, usize>, i: usize) -> (r: Option<(&String, &usize)>)
    ensures
        match r {
            Some((k, v)) => i < entries(*m).len() && entries(*m)[i as int] == (k@, *v),
            None => i >= entries(*m).len(),
        },
{
    m.get_index(i)
}

/// `IndexMap::insert`: a key that is there keeps its place and gets the new value, a new key goes
/// to the end. The value that was there before comes back.
#[verifier::external_body]
pub(crate) fn index_insert(m: &mut IndexMap<String, usize>, key: String, value: usize) -> (r: Option<
    usize,
>)
    ensures
        r == lookup(entries(*old(m)), key@),
        entries(*final(m)) == put(entries(*old(m)), key@, value),
{
    m.insert(key, value)
}

/// `IndexMap::shift_remove`: takes a key out and keeps the order of the rest. The value that was
/// there comes back.
#[verifier::external_body]
pub(crate) fn index_shift_remove(m: &mut IndexMap<String, usize>, key: &str) -> (r: Option<usize>)
    ensures
        r == lookup(entries(*old(m)), key@),
        entries(*final(m)) == take_out(entries(*old(m)), key@),
{
    m.shift_remove(key)
}

/// `IndexMap::shift_remove_index`: takes the pair at a position out and keeps the order of the
/// rest. A position out of range changes nothing.
#[verifier::external_body]
pub(crate) fn index_shift_remove_index(m: &mut IndexMap<String, usize>, i: usize) -> (r: Option<
    (String, usize),
>)
    ensures
        match r {
            Some((k, v)) => i < entries(*old(m)).len() && entries(*old(m))[i as int] == (k@, v)
                && entries(*final(m)) == entries(*old(m)).remove(i as int),
            None => i >= entries(*old(m)).len() && entries(*final(m)) == entries(*old(m)),
        },
{
    m.shift_remove_index(i)
}

/// `IndexMap::clear`: takes every pair out.
#[verifier::external_body]
pub(crate) fn index_clear(m: &mut IndexMap<String, usize>)
    ensures
        entries(*final(m)) == Seq::<(Seq<char>, usize)>::empty(),
{
    m.clear()
}

// ----------------------------------------------------------------------- lemmas

pub proof fn lemma_find_key<T>(s: Seq<(Seq<char>, T)>, key: Seq<char>)
    ensures
        find_key(s, key) <= s.len(),
        find_key(s, key) < s.len() ==> s[find_key(s, key) as int].0 == key,
        forall|i: int| 0 <= i < find_key(s, key) ==> (#[trigger] s[i]).0 != key,
    decreases s.len(),
{
    if s.len() > 0 && s[0].0 != key {
        let t = s.drop_first();
        lemma_find_key(t, key);
        assert forall|i: int| 0 <= i < find_key(s, key) implies (#[trigger] s[i]).0 != key by {
            if i > 0 {
                assert(t[i - 1] == s[i]);
            }
        }
    }
}

/// A position that holds `key` and has no `key` before it is the one that is found.
pub proof fn lemma_find_key_unique<T>(s: Seq<(Seq<char>, T)>, key: Seq<char>, i: int)
    requires
        0 <= i <= s.len(),
        i < s.len() ==> s[i].0 == key,
        forall|j: int| 0 <= j < i ==> (#[trigger] s[j]).0 != key,
    ensures
        find_key(s, key) == i,
{
    lemma_find_key(s, key);
    if find_key(s, key) < i {
        assert(s[find_key(s, key) as int].0 != key);
    }
}

/// Where a key is found depends on the keys alone.
pub proof fn lemma_find_key_by_keys<T, U>(
    s: Seq<(Seq<char>, T)>,
    t: Seq<(Seq<char>, U)>,
    key: Seq<char>,
)
    requires
        s.len() == t.len(),
        forall|i: int| 0 <= i < s.len() ==> (#[trigger] s[i]).0 == t[i].0,
    ensures
        find_key(s, key) == find_key(t, key),
{
    lemma_find_key(t, key);
    let n = find_key(t, key) as int;
    assert forall|j: int| 0 <= j < n implies (#[trigger] s[j]).0 != key by {
        assert(t[j].0 != key);
    }
    lemma_find_key_unique(s, key, n);
}

/// A key that is not there goes to the end.
pub proof fn lemma_put_fresh<T>(s: Seq<(Seq<char>, T)>, key: Seq<char>, v: T)
    requires
        forall|i: int| 0 <= i < s.len() ==> (#[trigger] s[i]).0 != key,
    ensures
        put(s, key, v) == s.push((key, v)),
{
    lemma_find_key_unique(s, key, s.len() as int);
}

pub proof fn lemma_put_distinct<T>(s: Seq<(Seq<char>, T)>, key: Seq<char>, v: T)
    requires
        distinct_keys(s),
    ensures
        distinct_keys(put(s, key, v)),
{
    lemma_find_key(s, key);
    let r = put(s, key, v);
    assert forall|i: int, j: int| 0 <= i < j < r.len() implies (#[trigger] r[i]).0 != (
    #[trigger] r[j]).0 by {
        if has_key(s, key) {
            let n = find_key(s, key) as int;
            assert(r[i].0 == s[i].0);
            assert(r[j].0 == s[j].0);
        } else if j < s.len() {
            assert(r[i] == s[i]);
            assert(r[j] == s[j]);
        } else {
            assert(r[i] == s[i]);
        }
    }
}

/// The pairs of `s` with every value changed alike.
pub open spec fn mapped<T, U>(s: Seq<(Seq<char>, T)>, f: spec_fn(T) -> U) -> Seq<(Seq<char>, U)> {
    Seq::new(s.len(), |i: int| (s[i].0, f(s[i].1)))
}

/// Changing every value alike does not disturb where a value is put.
pub proof fn lemma_put_mapped<T, U>(
    s: Seq<(Seq<char>, T)>,
    f: spec_fn(T) -> U,
    key: Seq<char>,
    v: T,
)
    ensures
        mapped(put(s, key, v), f) == put(mapped(s, f), key, f(v)),
{
    lemma_find_key(s, key);
    lemma_find_key_by_keys(s, mapped(s, f), key);
    assert(mapped(put(s, key, v), f) =~= put(mapped(s, f), key, f(v)));
}

/// Changing every value alike does not disturb what is found.
pub proof fn lemma_lookup_mapped<T, U>(s: Seq<(Seq<char>, T)>, f: spec_fn(T) -> U, key: Seq<char>)
    ensures
        lookup(mapped(s, f), key) == match lookup(s, key) {
            Some(v) => Some(f(v)),
            None => None,
        },
{
    lemma_find_key(s, key);
    lemma_find_key_by_keys(s, mapped(s, f), key);
}

/// What was put under a key is found there, what lies under other keys stays, and no key loses its
/// place.
pub proof fn law_what_is_put_is_found<T>(
    s: Seq<(Seq<char>, T)>,
    key: Seq<char>,
    v: T,
    other: Seq<char>,
)
    ensures
        lookup(put(s, key, v), key) == Some(v),
        other != key ==> lookup(put(s, key, v), other) == lookup(s, other),
        keys_of(put(s, key, v)) == if has_key(s, key) {
            keys_of(s)
        } else {
            keys_of(s).push(key)
        },
{
    lemma_find_key(s, key);
    lemma_find_key(s, other);
    let r = put(s, key, v);
    let n = find_key(s, key) as int;
    assert forall|j: int| 0 <= j < n implies (#[trigger] r[j]).0 != key by {
        assert(s[j].0 != key);
    }
    lemma_find_key_unique(r, key, n);
    if other != key {
        let m = find_key(s, other) as int;
        if m < s.len() {
            assert forall|j: int| 0 <= j < m implies (#[trigger] r[j]).0 != other by {
                assert(s[j].0 != other);
            }
            lemma_find_key_unique(r, other, m);
        } else {
            assert forall|j: int| 0 <= j < r.len() implies (#[trigger] r[j]).0 != other by {
                if j < s.len() {
                    assert(s[j].0 != other);
                }
            }
            lemma_find_key_unique(r, other, r.len() as int);
        }
    }
    assert(keys_of(r) =~= if has_key(s, key) {
        keys_of(s)
    } else {
        keys_of(s).push(key)
    });
}

// ----------------------------------------------------------------------- the ordered map

/// A map from text to `T` that keeps the order in which its keys were first inserted.
#[derive(Debug)]
pub struct OrderedMap<T> {
    index: IndexMap<String, usize>,
    values: Vec<T>,
}

impl<T> OrderedMap<T> {
    #[verifier::type_invariant]
    closed spec fn well_formed(self) -> bool {
        &&& entries(self.index).len() == self.values@.len()
        &&& forall|i: int|
            0 <= i < self.values@.len() ==> (#[trigger] entries(self.index)[i]).1 == i
        &&& distinct_keys(entries(self.index))
    }

    /// The pairs, in order.
    pub closed spec fn pairs(self) -> Seq<(Seq<char>, T)> {
        Seq::new(self.values@.len(), |i: int| (entries(self.index)[i].0, self.values@[i]))
    }
}

impl<T> View for OrderedMap<T> {
    type V = Seq<(Seq<char>, T)>;

    open spec fn view(&self) -> Seq<(Seq<char>, T)> {
        self.pairs()
    }
}

impl<T> OrderedMap<T> {
    /// A map without pairs.
    pub fn new() -> (r: Self)
        ensures
            r@ == Seq::<(Seq<char>, T)>::empty(),
    {
        OrderedMap { index: index_new(), values: Vec::new() }
    }

    /// The number of pairs. No two of them have the same key.
    pub fn len(&self) -> (r: usize)
        ensures
            r == self@.len(),
            distinct_keys(self@),
    {
        proof {
            use_type_invariant(self);
        }
        self.values.len()
    }

    /// Whether there is no pair.
    pub fn is_empty(&self) -> (r: bool)
        ensures
            r == (self@.len() == 0),
    {
        self.values.len() == 0
    }

    /// Puts `value` under `key`, in the place `key` already has or else at the end.
    pub fn with(self, key: &str, value: T) -> (r: Self)
        ensures
            r@ == put(self@, key@, value),
            distinct_keys(self@),
            distinct_keys(r@),
    {
        proof {
            use_type_invariant(&self);
        }
        let ghost before = self@;
        let OrderedMap { mut index, mut values } = self;
        let ghost was = entries(index);
        proof {
            lemma_find_key(was, key@);
            lemma_find_key_by_keys(was, before, key@);
            lemma_put_distinct(was, key@, 0);
            lemma_put_distinct(before, key@, value);
        }
        match index_get(&index, key) {
            Some(i) => {
                values.set(i, value);
            },
            None => {
                let n: usize = values.len();
                index_insert(&mut index, key.to_owned(), n);
                values.push(value);
                proof {
                    lemma_put_distinct(was, key@, n);
                }
            },
        }
        let r = OrderedMap { index, values };
        assert(r@ =~= put(before, key@, value));
        r
    }

    /// [`with`](OrderedMap::with), in place.
    pub fn insert(&mut self, key: &str, value: T)
        ensures
            final(self)@ == put(old(self)@, key@, value),
    {
        let mut map: OrderedMap<T> = OrderedMap::new();
        std::mem::swap(self, &mut map);
        *self = map.with(key, value);
    }

    /// What is under `key`.
    pub fn get(&self, key: &str) -> (r: Option<&T>)
        ensures
            match r {
                Some(v) => lookup(self@, key@) == Some(*v),
                None => lookup(self@, key@) is None,
            },
    {
        proof {
            use_type_invariant(self);
            lemma_find_key(entries(self.index), key@);
            lemma_find_key_by_keys(entries(self.index), self@, key@);
        }
        match index_get(&self.index, key) {
            Some(i) => Some(&self.values[i]),
            None => None,
        }
    }

    /// The pair at position `i`.
    pub fn at(&self, i: usize) -> (r: (&str, &T))
        requires
            i < self@.len(),
        ensures
            (r.0@, *r.1) == self@[i as int],
    {
        proof {
            use_type_invariant(self);
        }
        match index_at(&self.index, i) {
            Some((k, _)) => (k.as_str(), &self.values[i]),
            None => ("", &self.values[i]),
        }
    }
}

// ----------------------------------------------------------------------- laws

/// With distinct keys, every value is found under its own key, a key that is not there finds nothing, the
/// keys stand in their order, and taking one out leaves the others as they were.
pub proof fn law_values_are_found_under_their_keys<T>(
    s: Seq<(Seq<char>, T)>,
    i: int,
    key: Seq<char>,
)
    requires
        distinct_keys(s),
        0 <= i < s.len(),
    ensures
        lookup(s, s[i].0) == Some(s[i].1),
        lookup(s, key) is None <==> (forall|j: int| 0 <= j < s.len() ==> (#[trigger] s[j]).0 != key),
        keys_of(s).len() == s.len(),
        keys_of(s)[i] == s[i].0,
        take_out(s, s[i].0) == s.remove(i),
        lookup(s, key) is None ==> take_out(s, key) == s,
{
    lemma_find_key(s, s[i].0);
    lemma_find_key(s, key);
    let k = find_key(s, s[i].0) as int;
    if k < i {
        assert(s[k].0 != s[i].0);
    }
}

} // verus!
