//! Which checkpoints stay resident.
//!
//! A cold checkpoint build costs seconds while detection costs microseconds, so checkpoints are
//! kept once they are built, up to a cap, and the least recently used one makes room. A resident
//! agent is known here by a handle: a number its owner finds it by.

use indexmap::IndexMap;
use vstd::prelude::*;
use vstd::string::*;

use crate::ordered::{
    distinct_keys, entries, find_key, has_key, index_at, index_clear, index_insert, index_len,
    index_new, index_shift_remove, index_shift_remove_index, keys_of, lemma_find_key,
    lemma_find_key_unique, lemma_put_distinct, lookup, put, take_out,
};
use crate::router::{model_name, ModelName};
use crate::text::same_text;

verus! {

/// The resident checkpoints, least recently used first, never more than `max`.
pub struct Loaded {
    agents: IndexMap<String, usize>,
    max: usize,
}

/// Whether this is the name of a checkpoint.
pub open spec fn is_model(name: Seq<char>) -> bool {
    exists|m: ModelName| name == #[trigger] model_name(m)
}

/// Whether every key is the name of a checkpoint.
pub open spec fn all_models(s: Seq<(Seq<char>, usize)>) -> bool {
    forall|i: int| 0 <= i < s.len() ==> is_model((#[trigger] s[i]).0)
}

/// The last `max` of some residents.
pub open spec fn newest(s: Seq<(Seq<char>, usize)>, max: nat) -> Seq<(Seq<char>, usize)> {
    if s.len() <= max {
        s
    } else {
        s.skip(s.len() - max)
    }
}

/// The residents once `key` was used: it is the most recent one.
pub open spec fn touched(s: Seq<(Seq<char>, usize)>, key: Seq<char>) -> Seq<(Seq<char>, usize)> {
    match lookup(s, key) {
        Some(handle) => take_out(s, key).push((key, handle)),
        None => s,
    }
}

/// Some names with others added that are not yet among them.
pub open spec fn with_names(s: Seq<Seq<char>>, names: Seq<ModelName>) -> Seq<Seq<char>>
    decreases names.len(),
{
    if names.len() == 0 {
        s
    } else {
        let before = with_names(s, names.drop_last());
        if before.contains(model_name(names.last())) {
            before
        } else {
            before.push(model_name(names.last()))
        }
    }
}

/// A cap raised, where it has to be, so that some checkpoints fit beside those that are resident.
pub open spec fn room_for(s: Seq<(Seq<char>, usize)>, names: Seq<ModelName>, cap: nat) -> nat {
    if cap < with_names(keys_of(s), names).len() {
        with_names(keys_of(s), names).len()
    } else {
        cap
    }
}

impl Loaded {
    /// The residents by name, least recently used first, with their handles.
    pub closed spec fn residents(&self) -> Seq<(Seq<char>, usize)> {
        entries(self.agents)
    }

    /// How many checkpoints may be resident.
    pub closed spec fn cap(&self) -> nat {
        self.max as nat
    }

    #[verifier::type_invariant]
    spec fn well_formed(self) -> bool {
        &&& distinct_keys(entries(self.agents))
        &&& entries(self.agents).len() <= self.max
        &&& all_models(entries(self.agents))
    }

    /// Nothing resident, and room for `max` checkpoints.
    pub fn new(max: usize) -> (r: Self)
        ensures
            r.residents() == Seq::<(Seq<char>, usize)>::empty(),
            r.cap() == max,
    {
        Loaded { agents: index_new(), max }
    }

    /// How many checkpoints may be resident. There are never more.
    pub fn max(&self) -> (r: usize)
        ensures
            r == self.cap(),
            self.residents().len() <= r,
            distinct_keys(self.residents()),
    {
        proof {
            use_type_invariant(self);
        }
        self.max
    }

    /// The handle of `name`, marked as just used.
    pub fn touch(&mut self, name: ModelName) -> (r: Option<usize>)
        ensures
            r == lookup(old(self).residents(), model_name(name)),
            final(self).residents() == touched(old(self).residents(), model_name(name)),
            final(self).cap() == old(self).cap(),
    {
        proof {
            use_type_invariant(&*self);
        }
        let ghost before = entries(self.agents);
        let ghost key = model_name(name);
        let max: usize = self.max;
        let mut agents = index_new();
        std::mem::swap(&mut agents, &mut self.agents);
        let found = index_shift_remove(&mut agents, name.as_str());
        if let Some(handle) = found {
            let ghost rest = entries(agents);
            proof {
                lemma_take_out(before, key);
                lemma_find_key_unique(rest, key, rest.len() as int);
            }
            let _ = index_insert(&mut agents, name.as_str().to_owned(), handle);
        }
        proof {
            lemma_touched(before, key);
        }
        *self = Loaded { agents, max };
        found
    }

    /// Make `handle` resident under `name`, evicting the least recently used beyond the cap.
    pub fn insert(&mut self, name: ModelName, handle: usize)
        ensures
            final(self).residents() == newest(
                put(old(self).residents(), model_name(name), handle),
                old(self).cap(),
            ),
            final(self).cap() == old(self).cap(),
    {
        proof {
            use_type_invariant(&*self);
        }
        let ghost before = entries(self.agents);
        let ghost key = model_name(name);
        let max: usize = self.max;
        let mut agents = index_new();
        std::mem::swap(&mut agents, &mut self.agents);
        let _ = index_insert(&mut agents, name.as_str().to_owned(), handle);
        let ghost all = entries(agents);
        proof {
            lemma_put_distinct(before, key, handle);
            lemma_find_key(before, key);
            assert(all.skip(0) =~= all);
        }
        let ghost mut dropped: int = 0;
        while index_len(&agents) > max
            invariant
                0 <= dropped <= all.len(),
                entries(agents) == all.skip(dropped),
                dropped > 0 ==> all.len() - dropped >= max,
            decreases entries(agents).len(),
        {
            let _ = index_shift_remove_index(&mut agents, 0);
            proof {
                assert(all.skip(dropped).remove(0) =~= all.skip(dropped + 1));
                dropped = dropped + 1;
            }
        }
        proof {
            assert(entries(agents) =~= newest(all, max as nat));
            lemma_put_names(before, name, handle);
            assert forall|i: int| 0 <= i < entries(agents).len() implies is_model(
                (#[trigger] entries(agents)[i]).0,
            ) by {
                assert(entries(agents)[i] == all[i + dropped]);
            }
            assert(distinct_keys(entries(agents))) by {
                assert forall|i: int, j: int| 0 <= i < j < entries(agents).len() implies (
                #[trigger] entries(agents)[i]).0 != (#[trigger] entries(agents)[j]).0 by {
                    assert(all[i + dropped].0 != all[j + dropped].0);
                }
            }
        }
        *self = Loaded { agents, max };
    }

    /// Free one checkpoint, or all of them.
    pub fn unload(&mut self, name: Option<ModelName>)
        ensures
            final(self).residents() == match name {
                Some(m) => take_out(old(self).residents(), model_name(m)),
                None => Seq::empty(),
            },
            final(self).cap() == old(self).cap(),
    {
        proof {
            use_type_invariant(&*self);
        }
        let ghost before = entries(self.agents);
        let max: usize = self.max;
        let mut agents = index_new();
        std::mem::swap(&mut agents, &mut self.agents);
        match name {
            None => index_clear(&mut agents),
            Some(m) => {
                let _ = index_shift_remove(&mut agents, m.as_str());
                proof {
                    lemma_take_out(before, model_name(m));
                }
            },
        }
        *self = Loaded { agents, max };
    }

    /// Raise the cap so that these checkpoints can be built without any of them, or any checkpoint
    /// already resident, being evicted to make room.
    pub fn make_room(&mut self, names: &Vec<ModelName>)
        ensures
            final(self).residents() == old(self).residents(),
            final(self).cap() == room_for(old(self).residents(), names@, old(self).cap()),
    {
        proof {
            use_type_invariant(&*self);
        }
        let mut wanted: Vec<&'static str> = Vec::new();
        let ghost keys = keys_of(entries(self.agents));
        let mut i: usize = 0;
        while i < index_len(&self.agents)
            invariant
                i <= entries(self.agents).len(),
                keys == keys_of(entries(self.agents)),
                entries(self.agents) == old(self).residents(),
                self.max == old(self).cap(),
                names_of(wanted@) == keys.take(i as int),
                all_models(entries(self.agents)),
            decreases entries(self.agents).len() - i,
        {
            let (key, _) = index_at(&self.agents, i).unwrap();
            let ghost before = wanted@;
            assert(entries(self.agents)[i as int].0 == key@);
            let name = model_of(key.as_str());
            wanted.push(name.as_str());
            assert(names_of(wanted@) =~= keys.take(i + 1)) by {
                assert(names_of(wanted@) =~= names_of(before).push(key@));
                assert(keys.take(i + 1) =~= keys.take(i as int).push(keys[i as int]));
            }
            i = i + 1;
        }
        assert(keys.take(keys.len() as int) =~= keys);
        assert(names@.take(0) =~= Seq::empty());
        for j in 0..names.len()
            invariant
                entries(self.agents) == old(self).residents(),
                self.max == old(self).cap(),
                names_of(wanted@) == with_names(keys, names@.take(j as int)),
        {
            let ghost before = wanted@;
            assert(names@.take(j + 1).drop_last() =~= names@.take(j as int));
            let name = names[j].as_str();
            if !has_name(&wanted, name) {
                wanted.push(name);
                assert(names_of(wanted@) =~= names_of(before).push(name@));
            }
        }
        assert(names@.take(names@.len() as int) =~= names@);
        assert(wanted@.len() == names_of(wanted@).len());
        if self.max < wanted.len() {
            let mut agents = index_new();
            std::mem::swap(&mut agents, &mut self.agents);
            *self = Loaded { agents, max: wanted.len() };
        }
    }

    /// The checkpoints currently resident, least recently used first.
    pub fn loaded(&self) -> (r: Vec<ModelName>)
        ensures
            r@.len() == self.residents().len(),
            forall|i: int|
                0 <= i < r@.len() ==> model_name(#[trigger] r@[i]) == self.residents()[i].0,
    {
        proof {
            use_type_invariant(self);
        }
        let mut out: Vec<ModelName> = Vec::new();
        let mut i: usize = 0;
        while i < index_len(&self.agents)
            invariant
                i <= entries(self.agents).len(),
                out@.len() == i,
                forall|j: int|
                    0 <= j < i ==> model_name(#[trigger] out@[j]) == entries(self.agents)[j].0,
                all_models(entries(self.agents)),
            decreases entries(self.agents).len() - i,
        {
            let (key, _) = index_at(&self.agents, i).unwrap();
            assert(entries(self.agents)[i as int].0 == key@);
            out.push(model_of(key.as_str()));
            i = i + 1;
        }
        out
    }

    /// The handles of the checkpoints currently resident, least recently used first.
    pub fn handles(&self) -> (r: Vec<usize>)
        ensures
            r@.len() == self.residents().len(),
            forall|i: int| 0 <= i < r@.len() ==> #[trigger] r@[i] == self.residents()[i].1,
    {
        let mut out: Vec<usize> = Vec::new();
        let mut i: usize = 0;
        while i < index_len(&self.agents)
            invariant
                i <= entries(self.agents).len(),
                out@.len() == i,
                forall|j: int| 0 <= j < i ==> #[trigger] out@[j] == entries(self.agents)[j].1,
            decreases entries(self.agents).len() - i,
        {
            let (_, handle) = index_at(&self.agents, i).unwrap();
            out.push(*handle);
            i = i + 1;
        }
        out
    }
}

/// Names, mathematically.
pub open spec fn names_of(v: Seq<&'static str>) -> Seq<Seq<char>> {
    Seq::new(v.len(), |i: int| v[i]@)
}

fn has_name(names: &Vec<&'static str>, name: &str) -> (r: bool)
    ensures
        r == names_of(names@).contains(name@),
{
    for i in 0..names.len()
        invariant
            forall|j: int| 0 <= j < i ==> (#[trigger] names@[j])@ != name@,
    {
        if same_text(names[i], name) {
            assert(names_of(names@)[i as int] == name@);
            return true;
        }
    }
    assert(forall|j: int| 0 <= j < names_of(names@).len() ==> names_of(names@)[j] != name@);
    false
}

fn model_of(name: &str) -> (r: ModelName)
    requires
        is_model(name@),
    ensures
        model_name(r) == name@,
{
    if same_text(name, "english") {
        ModelName::English
    } else if same_text(name, "multilingual") {
        ModelName::Multilingual
    } else {
        ModelName::TypedDecisions
    }
}

// ----------------------------------------------------------------------- lemmas

/// Taking a key out leaves the others, in order.
proof fn lemma_take_out(s: Seq<(Seq<char>, usize)>, key: Seq<char>)
    requires
        distinct_keys(s),
    ensures
        distinct_keys(take_out(s, key)),
        take_out(s, key).len() <= s.len(),
        has_key(s, key) ==> take_out(s, key).len() == s.len() - 1,
        forall|i: int| 0 <= i < take_out(s, key).len() ==> (#[trigger] take_out(s, key)[i]).0 != key,
        forall|i: int|
            0 <= i < take_out(s, key).len() ==> exists|j: int|
                0 <= j < s.len() && s[j] == #[trigger] take_out(s, key)[i],
{
    lemma_find_key(s, key);
    let k = find_key(s, key) as int;
    let t = take_out(s, key);
    if has_key(s, key) {
        assert forall|i: int| 0 <= i < t.len() implies (#[trigger] t[i]).0 != key && (exists|j: int|
            0 <= j < s.len() && s[j] == t[i]) by {
            let j = if i < k {
                i
            } else {
                i + 1
            };
            assert(t[i] == s[j]);
            assert(s[k].0 == key);
        }
        assert forall|i: int, j: int| 0 <= i < j < t.len() implies (#[trigger] t[i]).0 != (
        #[trigger] t[j]).0 by {
            let a = if i < k {
                i
            } else {
                i + 1
            };
            let b = if j < k {
                j
            } else {
                j + 1
            };
            assert(s[a].0 != s[b].0);
        }
    } else {
        assert forall|i: int| 0 <= i < t.len() implies (#[trigger] t[i]).0 != key && (exists|j: int|
            0 <= j < s.len() && s[j] == t[i]) by {
            assert(s[i] == t[i]);
        }
    }
}

/// Using a resident keeps the names distinct and their number.
proof fn lemma_touched(s: Seq<(Seq<char>, usize)>, key: Seq<char>)
    requires
        distinct_keys(s),
    ensures
        distinct_keys(touched(s, key)),
        touched(s, key).len() == s.len(),
        forall|i: int|
            0 <= i < touched(s, key).len() ==> exists|j: int|
                0 <= j < s.len() && s[j] == #[trigger] touched(s, key)[i],
{
    lemma_take_out(s, key);
    lemma_find_key(s, key);
    let t = take_out(s, key);
    let u = touched(s, key);
    assert forall|i: int| 0 <= i < u.len() implies exists|j: int|
        0 <= j < s.len() && s[j] == #[trigger] u[i] by {
        if has_key(s, key) {
            if i < t.len() {
                assert(u[i] == t[i]);
            } else {
                assert(u[i] == s[find_key(s, key) as int]);
            }
        } else {
            assert(s[i] == u[i]);
        }
    }
}

proof fn lemma_put_names(s: Seq<(Seq<char>, usize)>, name: ModelName, handle: usize)
    requires
        all_models(s),
    ensures
        all_models(put(s, model_name(name), handle)),
{
    let t = put(s, model_name(name), handle);
    lemma_find_key(s, model_name(name));
    assert(is_model(model_name(name)));
    assert forall|i: int| 0 <= i < t.len() implies is_model((#[trigger] t[i]).0) by {
        if i < s.len() {
            assert(is_model(s[i].0));
        }
    }
}

/// A key is there exactly when it is among the keys.
proof fn lemma_has_key(s: Seq<(Seq<char>, usize)>, key: Seq<char>)
    ensures
        has_key(s, key) <==> keys_of(s).contains(key),
{
    lemma_find_key(s, key);
    if has_key(s, key) {
        assert(keys_of(s)[find_key(s, key) as int] == key);
    }
    if keys_of(s).contains(key) {
        let i = choose|i: int| 0 <= i < keys_of(s).len() && keys_of(s)[i] == key;
        assert(s[i].0 == key);
    }
}

// ----------------------------------------------------------------------- laws

/// The residents after `name` was asked for: used if it is resident, made resident under `handle`
/// if it is not.
pub open spec fn asked_for(
    s: Seq<(Seq<char>, usize)>,
    name: ModelName,
    handle: usize,
    cap: nat,
) -> Seq<(Seq<char>, usize)> {
    if has_key(s, model_name(name)) {
        touched(s, model_name(name))
    } else {
        newest(put(s, model_name(name), handle), cap)
    }
}

/// The residents after some checkpoints were asked for, one after the other.
pub open spec fn all_asked_for(
    s: Seq<(Seq<char>, usize)>,
    names: Seq<ModelName>,
    handles: Seq<usize>,
    cap: nat,
) -> Seq<(Seq<char>, usize)>
    decreases names.len(),
{
    if names.len() == 0 {
        s
    } else {
        asked_for(
            all_asked_for(s, names.drop_last(), handles.drop_last(), cap),
            names.last(),
            handles.last(),
            cap,
        )
    }
}

/// Making a checkpoint resident never exceeds the cap, and the checkpoint is resident afterwards.
pub proof fn law_inserting_keeps_the_cap(
    s: Seq<(Seq<char>, usize)>,
    name: ModelName,
    handle: usize,
    cap: nat,
)
    requires
        distinct_keys(s),
        s.len() <= cap,
        cap > 0,
    ensures
        newest(put(s, model_name(name), handle), cap).len() <= cap,
        lookup(newest(put(s, model_name(name), handle), cap), model_name(name)) == Some(handle),
{
    let key = model_name(name);
    let t = put(s, key, handle);
    let u = newest(t, cap);
    lemma_find_key(s, key);
    lemma_put_distinct(s, key, handle);
    let i = if has_key(s, key) {
        find_key(s, key) as int
    } else {
        u.len() - 1
    };
    assert(u[i] == (key, handle));
    assert forall|j: int| 0 <= j < i implies (#[trigger] u[j]).0 != key by {
        if has_key(s, key) {
            assert(u[j] == s[j]);
        } else {
            let d = t.len() - u.len();
            assert(u[j] == t[j + d]);
            assert(t[j + d].0 != t[t.len() - 1].0);
        }
    }
    lemma_find_key_unique(u, key, i);
}

/// Using a resident checkpoint evicts nothing, changes no handle and makes it the last to go.
pub proof fn law_touching_makes_most_recent(s: Seq<(Seq<char>, usize)>, name: ModelName)
    requires
        distinct_keys(s),
        has_key(s, model_name(name)),
    ensures
        touched(s, model_name(name)).len() == s.len(),
        touched(s, model_name(name)).last() == (
            model_name(name),
            lookup(s, model_name(name))->0,
        ),
        forall|k: Seq<char>| #[trigger]
            has_key(touched(s, model_name(name)), k) <==> has_key(s, k),
{
    let key = model_name(name);
    let u = touched(s, key);
    lemma_touched(s, key);
    lemma_take_out(s, key);
    lemma_find_key(s, key);
    let at = find_key(s, key) as int;
    assert forall|k: Seq<char>| #[trigger] has_key(u, k) <==> has_key(s, k) by {
        lemma_find_key(u, k);
        lemma_find_key(s, k);
        if has_key(u, k) {
            let i = find_key(u, k) as int;
            let j = choose|j: int| 0 <= j < s.len() && s[j] == u[i];
            assert(s[j].0 == k);
        }
        if has_key(s, k) {
            let i = find_key(s, k) as int;
            if i < at {
                assert(u[i] == s[i]);
            } else if i > at {
                assert(u[i - 1] == s[i]);
            } else {
                assert(u[u.len() - 1].0 == key);
            }
        }
    }
}

/// The residents after some checkpoints were preloaded: room was made for all of them, and they were
/// asked for, one after the other.
pub open spec fn preloaded(
    s: Seq<(Seq<char>, usize)>,
    names: Seq<ModelName>,
    handles: Seq<usize>,
    cap: nat,
) -> Seq<(Seq<char>, usize)> {
    all_asked_for(s, names, handles, room_for(s, names, cap))
}

/// Whatever the cap was, preloading leaves exactly those checkpoints resident that were resident
/// before or are preloaded, each once, within the cap that room was made with. That cap is no
/// smaller than before.
pub proof fn law_preloading_evicts_nothing(
    s: Seq<(Seq<char>, usize)>,
    names: Seq<ModelName>,
    handles: Seq<usize>,
    cap: nat,
)
    requires
        distinct_keys(s),
        handles.len() == names.len(),
    ensures
        distinct_keys(preloaded(s, names, handles, cap)),
        cap <= room_for(s, names, cap),
        preloaded(s, names, handles, cap).len() <= room_for(s, names, cap),
        forall|k: Seq<char>| #[trigger]
            has_key(preloaded(s, names, handles, cap), k) <==> has_key(s, k) || (exists|i: int|
                0 <= i < names.len() && model_name(#[trigger] names[i]) == k),
{
    let room = room_for(s, names, cap);
    let t = preloaded(s, names, handles, cap);
    law_asking_within_the_cap_evicts_nothing(s, names, handles, room);
    assert forall|k: Seq<char>| #[trigger] has_key(t, k) <==> has_key(s, k) || (exists|i: int|
        0 <= i < names.len() && model_name(#[trigger] names[i]) == k) by {
        lemma_with_names(keys_of(s), names, k);
        lemma_has_key(s, k);
    }
}

/// A name is among some names with others added exactly when it is one of the former or the latter.
proof fn lemma_with_names(s: Seq<Seq<char>>, names: Seq<ModelName>, k: Seq<char>)
    ensures
        with_names(s, names).contains(k) <==> s.contains(k) || (exists|i: int|
            0 <= i < names.len() && model_name(#[trigger] names[i]) == k),
    decreases names.len(),
{
    if names.len() > 0 {
        let some = names.drop_last();
        let key = model_name(names.last());
        lemma_with_names(s, some, k);
        lemma_with_names(s, some, key);
        lemma_push_contains(with_names(s, some), key, k);
        if exists|i: int| 0 <= i < some.len() && model_name(#[trigger] some[i]) == k {
            let i = choose|i: int| 0 <= i < some.len() && model_name(#[trigger] some[i]) == k;
            assert(names[i] == some[i]);
        }
        if exists|i: int| 0 <= i < names.len() && model_name(#[trigger] names[i]) == k {
            let i = choose|i: int| 0 <= i < names.len() && model_name(#[trigger] names[i]) == k;
            if i < some.len() {
                assert(names[i] == some[i]);
            }
        }
        if k == key {
            assert(model_name(names[names.len() - 1]) == k);
        }
    }
}

/// Asking for checkpoints evicts nothing where all of them fit: exactly those are resident
/// afterwards that were resident before or were asked for.
pub proof fn law_asking_within_the_cap_evicts_nothing(
    s: Seq<(Seq<char>, usize)>,
    names: Seq<ModelName>,
    handles: Seq<usize>,
    cap: nat,
)
    requires
        distinct_keys(s),
        handles.len() == names.len(),
        with_names(keys_of(s), names).len() <= cap,
    ensures
        distinct_keys(all_asked_for(s, names, handles, cap)),
        all_asked_for(s, names, handles, cap).len() == with_names(keys_of(s), names).len(),
        forall|k: Seq<char>| #[trigger]
            has_key(all_asked_for(s, names, handles, cap), k) <==> with_names(
                keys_of(s),
                names,
            ).contains(k),
        forall|k: Seq<char>| has_key(s, k) ==> #[trigger] has_key(
            all_asked_for(s, names, handles, cap),
            k,
        ),
        forall|i: int|
            0 <= i < names.len() ==> has_key(
                all_asked_for(s, names, handles, cap),
                model_name(#[trigger] names[i]),
            ),
    decreases names.len(),
{
    let keys = keys_of(s);
    let t = all_asked_for(s, names, handles, cap);
    if names.len() == 0 {
        assert forall|k: Seq<char>| #[trigger] has_key(t, k) <==> keys.contains(k) by {
            lemma_has_key(s, k);
        }
    } else {
        let name = names.last();
        let key = model_name(name);
        let some = names.drop_last();
        let u = all_asked_for(s, some, handles.drop_last(), cap);
        let before = with_names(keys, some);
        let after = with_names(keys, names);
        law_asking_within_the_cap_evicts_nothing(s, some, handles.drop_last(), cap);
        if has_key(u, key) {
            law_touching_makes_most_recent(u, name);
            lemma_touched(u, key);
        } else {
            assert(!before.contains(key));
            assert(t =~= u.push((key, handles.last())));
            lemma_put_distinct(u, key, handles.last());
            assert forall|k: Seq<char>| #[trigger] has_key(t, k) <==> after.contains(k) by {
                lemma_has_key(t, k);
                lemma_has_key(u, k);
                assert(keys_of(t) =~= keys_of(u).push(key));
                assert(has_key(u, k) <==> before.contains(k));
                lemma_push_contains(keys_of(u), key, k);
                lemma_push_contains(before, key, k);
            }
            lemma_push_contains(before, key, key);
        }
        assert forall|k: Seq<char>| has_key(s, k) implies #[trigger] has_key(t, k) by {
            assert(has_key(u, k));
            assert(has_key(t, k) <==> after.contains(k));
            lemma_push_contains(before, key, k);
        }
        assert forall|i: int| 0 <= i < names.len() implies has_key(
            t,
            model_name(#[trigger] names[i]),
        ) by {
            let k = model_name(names[i]);
            assert(has_key(t, k) <==> after.contains(k));
            lemma_push_contains(before, key, k);
            if i < some.len() {
                assert(some[i] == names[i]);
                assert(has_key(u, k));
            } else {
                assert(has_key(t, key) <==> after.contains(key));
                lemma_push_contains(before, key, key);
            }
        }
    }
}

proof fn lemma_push_contains(s: Seq<Seq<char>>, a: Seq<char>, k: Seq<char>)
    ensures
        s.push(a).contains(k) <==> s.contains(k) || k == a,
{
    if s.contains(k) {
        let i = choose|i: int| 0 <= i < s.len() && s[i] == k;
        assert(s.push(a)[i] == k);
    }
    if k == a {
        assert(s.push(a)[s.len() as int] == k);
    }
}

/// A checkpoint that comes in goes behind all that are resident. Where there is no room the one that was
/// used least recently, and no other, makes way; and one that is resident already keeps its place.
pub proof fn law_the_oldest_makes_way(
    s: Seq<(Seq<char>, usize)>,
    name: ModelName,
    handle: usize,
    cap: nat,
    i: int,
)
    requires
        distinct_keys(s),
        s.len() <= cap,
        cap > 0,
    ensures
        !has_key(s, model_name(name)) && s.len() < cap ==> newest(
            put(s, model_name(name), handle),
            cap,
        ) == s.push((model_name(name), handle)),
        !has_key(s, model_name(name)) && s.len() == cap ==> newest(
            put(s, model_name(name), handle),
            cap,
        ) == s.drop_first().push((model_name(name), handle)),
        0 <= i < s.len() && s[i].0 == model_name(name) ==> newest(
            put(s, model_name(name), handle),
            cap,
        ) == s.update(i, (model_name(name), handle)),
{
    let key = model_name(name);
    lemma_find_key(s, key);
    let r = put(s, key, handle);
    if !has_key(s, key) {
        assert(r =~= s.push((key, handle)));
        if s.len() == cap {
            assert(r.skip(1) =~= s.drop_first().push((key, handle)));
        }
    }
    if 0 <= i < s.len() && s[i].0 == key {
        lemma_only_place(s, key, i);
        assert(r =~= s.update(i, (key, handle)));
    }
}

/// With distinct keys, there is one place for a key.
proof fn lemma_only_place(s: Seq<(Seq<char>, usize)>, key: Seq<char>, i: int)
    requires
        distinct_keys(s),
        0 <= i < s.len(),
        s[i].0 == key,
    ensures
        has_key(s, key),
        find_key(s, key) == i,
{
    lemma_find_key(s, key);
    let n = find_key(s, key) as int;
    if n < i {
        assert(s[n].0 != s[i].0);
    } else if n > i {
        assert(s[i].0 != key);
    }
}

/// A checkpoint that is used moves behind all others, which keep their order, and one that is not
/// resident changes nothing; one that is unloaded leaves, and the others keep their order.
pub proof fn law_others_keep_their_order(s: Seq<(Seq<char>, usize)>, name: ModelName, i: int)
    requires
        distinct_keys(s),
    ensures
        0 <= i < s.len() && s[i].0 == model_name(name) ==> {
            &&& touched(s, model_name(name)) == s.remove(i).push(s[i])
            &&& lookup(s, model_name(name)) == Some(s[i].1)
            &&& take_out(s, model_name(name)) == s.remove(i)
        },
        (forall|j: int| 0 <= j < s.len() ==> (#[trigger] s[j]).0 != model_name(name)) ==> {
            &&& touched(s, model_name(name)) == s
            &&& lookup(s, model_name(name)) is None
            &&& take_out(s, model_name(name)) == s
        },
{
    let key = model_name(name);
    lemma_find_key(s, key);
    if 0 <= i < s.len() && s[i].0 == key {
        lemma_only_place(s, key, i);
        assert(s[i] == (key, s[i].1));
    }
}

/// Room is made for every checkpoint that is to be resident at once, those that are already there among
/// them, and never less than there was.
pub proof fn law_room_is_made(
    s: Seq<(Seq<char>, usize)>,
    names: Seq<ModelName>,
    name: ModelName,
    cap: nat,
)
    ensures
        room_for(s, Seq::empty(), cap) == if cap < s.len() {
            s.len()
        } else {
            cap
        },
        room_for(s, names, cap) >= cap,
        room_for(s, names, cap) <= room_for(s, names.push(name), cap) <= room_for(s, names, cap) + 1,
        names.contains(name) || has_key(s, model_name(name)) ==> room_for(s, names.push(name), cap)
            == room_for(s, names, cap),
        s.len() + names.len() <= cap ==> room_for(s, names, cap) == cap,
{
    assert(names.push(name).drop_last() =~= names);
    lemma_with_names(keys_of(s), names, model_name(name));
    lemma_has_key(s, model_name(name));
    if names.contains(name) {
        let k = choose|k: int| 0 <= k < names.len() && names[k] == name;
        assert(model_name(names[k]) == model_name(name));
    }
    lemma_with_names_size(keys_of(s), names);
}

proof fn lemma_with_names_size(s: Seq<Seq<char>>, names: Seq<ModelName>)
    ensures
        s.len() <= with_names(s, names).len() <= s.len() + names.len(),
    decreases names.len(),
{
    if names.len() > 0 {
        lemma_with_names_size(s, names.drop_last());
    }
}

} // verus!
