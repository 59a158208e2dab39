//! A small map with string keys that remembers the order of insertion.
use vstd::prelude::*;
use crate::text::str_eq;

verus! {

/// The position of a key, from `from` on.
pub open spec fn key_from<V>(entries: Seq<(Seq<char>, V)>, key: Seq<char>, from: int) -> Option<int>
    decreases entries.len() - from,
{
    if from < 0 || from >= entries.len() {
        None
    } else if entries[from].0 == key {
        Some(from)
    } else {
        key_from(entries, key, from + 1)
    }
}

/// The value of a key.
pub open spec fn lookup<V>(entries: Seq<(Seq<char>, V)>, key: Seq<char>) -> Option<V> {
    match key_from(entries, key, 0) {
        Some(i) => Some(entries[i].1),
        None => None,
    }
}

/// The entries with `key` bound to `value`: a key that is there keeps its place.
pub open spec fn inserted<V>(entries: Seq<(Seq<char>, V)>, key: Seq<char>, value: V) -> Seq<
    (Seq<char>, V),
> {
    match key_from(entries, key, 0) {
        Some(i) => entries.update(i, (key, value)),
        None => entries.push((key, value)),
    }
}

/// The entries as a mathematical map.
pub open spec fn dict<V>(entries: Seq<(Seq<char>, V)>) -> Map<Seq<char>, V> {
    Map::new(
        |k: Seq<char>| lookup(entries, k) is Some,
        |k: Seq<char>| lookup(entries, k)->0,
    )
}

/// The entries with every value replaced by its image.
pub open spec fn map_entries<V, W>(entries: Seq<(Seq<char>, V)>, f: spec_fn(V) -> W) -> Seq<
    (Seq<char>, W),
> {
    Seq::new(entries.len(), |i: int| (entries[i].0, f(entries[i].1)))
}

pub proof fn lemma_key_from<V>(entries: Seq<(Seq<char>, V)>, key: Seq<char>, from: int)
    requires
        0 <= from <= entries.len(),
    ensures
        match key_from(entries, key, from) {
            Some(i) => from <= i < entries.len() && entries[i].0 == key && forall|j: int|
                from <= j < i ==> (#[trigger] entries[j]).0 != key,
            None => forall|j: int| from <= j < entries.len() ==> (#[trigger] entries[j]).0 != key,
        },
    decreases entries.len() - from,
{
    if from < entries.len() && entries[from].0 != key {
        lemma_key_from(entries, key, from + 1);
    }
}

/// A key found first at `i` is the one that a search finds.
pub proof fn lemma_key_at<V>(entries: Seq<(Seq<char>, V)>, key: Seq<char>, from: int, i: int)
    requires
        0 <= from <= i < entries.len(),
        entries[i].0 == key,
        forall|j: int| from <= j < i ==> (#[trigger] entries[j]).0 != key,
    ensures
        key_from(entries, key, from) == Some(i),
    decreases i - from,
{
    if from < i {
        lemma_key_at(entries, key, from + 1, i);
    }
}

pub proof fn lemma_map_lookup<V, W>(
    entries: Seq<(Seq<char>, V)>,
    f: spec_fn(V) -> W,
    key: Seq<char>,
)
    ensures
        lookup(map_entries(entries, f), key) == match lookup(entries, key) {
            Some(v) => Some(f(v)),
            None => None,
        },
        key_from(map_entries(entries, f), key, 0) == key_from(entries, key, 0),
{
    lemma_key_from(entries, key, 0);
    lemma_key_from(map_entries(entries, f), key, 0);
    let mapped = map_entries(entries, f);
    assert forall|j: int| 0 <= j < entries.len() implies (#[trigger] mapped[j]).0
        == entries[j].0 by {}
    match key_from(entries, key, 0) {
        Some(i) => {
            assert forall|j: int| 0 <= j < i implies (#[trigger] mapped[j]).0 != key by {
                assert(entries[j].0 != key);
            }
            lemma_key_at(mapped, key, 0, i);
        },
        None => {
            if let Some(i) = key_from(mapped, key, 0) {
                assert(entries[i].0 != key);
            }
        },
    }
}

pub proof fn lemma_map_inserted<V, W>(
    entries: Seq<(Seq<char>, V)>,
    f: spec_fn(V) -> W,
    key: Seq<char>,
    value: V,
)
    ensures
        map_entries(inserted(entries, key, value), f) == inserted(
            map_entries(entries, f),
            key,
            f(value),
        ),
{
    lemma_map_lookup(entries, f, key);
    lemma_key_from(entries, key, 0);
    assert(map_entries(inserted(entries, key, value), f) =~= inserted(
        map_entries(entries, f),
        key,
        f(value),
    ));
}

/// No key occurs twice.
pub open spec fn unique<V>(entries: Seq<(Seq<char>, V)>) -> bool {
    forall|i: int, j: int|
        0 <= i < j < entries.len() ==> (#[trigger] entries[i]).0 != (#[trigger] entries[j]).0
}

pub proof fn lemma_inserted_unique<V>(entries: Seq<(Seq<char>, V)>, key: Seq<char>, value: V)
    requires
        unique(entries),
    ensures
        unique(inserted(entries, key, value)),
{
    lemma_key_from(entries, key, 0);
}

/// Inserting binds the key and leaves the other keys as they were.
pub proof fn lemma_dict_inserted<V>(entries: Seq<(Seq<char>, V)>, key: Seq<char>, value: V)
    ensures
        dict(inserted(entries, key, value)) == dict(entries).insert(key, value),
{
    let after = inserted(entries, key, value);
    assert forall|k: Seq<char>| #[trigger]
        lookup(after, k) == (if k == key { Some(value) } else { lookup(entries, k) }) by {
        lemma_key_from(entries, key, 0);
        lemma_key_from(entries, k, 0);
        lemma_key_from(after, k, 0);
        let at = match key_from(entries, key, 0) {
            Some(i) => i,
            None => entries.len() as int,
        };
        assert(after[at] == (key, value));
        assert forall|j: int| 0 <= j < entries.len() && j != at implies after[j]
            == #[trigger] entries[j] by {}
        if k == key {
            assert forall|j: int| 0 <= j < at implies (#[trigger] after[j]).0 != k by {
                assert(entries[j].0 != key);
            }
            lemma_key_at(after, k, 0, at);
        } else {
            match key_from(entries, k, 0) {
                Some(i) => {
                    assert forall|j: int| 0 <= j < i implies (#[trigger] after[j]).0 != k by {
                        if j != at {
                            assert(entries[j].0 != k);
                        }
                    }
                    lemma_key_at(after, k, 0, i);
                },
                None => {
                    if let Some(i) = key_from(after, k, 0) {
                        if i != at {
                            assert(entries[i].0 != k);
                        }
                    }
                },
            }
        }
    }
    assert(dict(after) =~= dict(entries).insert(key, value));
}

/// A map from strings to values. No key occurs twice.
#[derive(Debug)]
pub struct StrMap<T> {
    entries: Vec<(String, T)>,
}

/// The entries of a vector of pairs, with the characters of the keys.
spec fn pairs<T>(v: Seq<(String, T)>) -> Seq<(Seq<char>, T)> {
    Seq::new(v.len(), |i: int| (v[i].0@, v[i].1))
}

impl<T> View for StrMap<T> {
    type V = Seq<(Seq<char>, T)>;

    closed spec fn view(&self) -> Seq<(Seq<char>, T)> {
        pairs(self.entries@)
    }
}

impl<T> StrMap<T> {
    #[verifier::type_invariant]
    spec fn inv(self) -> bool {
        unique(pairs(self.entries@))
    }

    pub fn new() -> (r: StrMap<T>)
        ensures
            r@ == Seq::<(Seq<char>, T)>::empty(),
    {
        let r = StrMap { entries: Vec::new() };
        assert(r@ =~= Seq::<(Seq<char>, T)>::empty());
        r
    }

    /// The number of entries. No two of them have the same key.
    pub fn len(&self) -> (r: usize)
        ensures
            r == self@.len(),
            unique(self@),
    {
        proof {
            use_type_invariant(self);
        }
        self.entries.len()
    }

    /// The key at a place in the order of insertion.
    pub fn key_at(&self, i: usize) -> (r: &str)
        requires
            i < self@.len(),
        ensures
            r@ == self@[i as int].0,
    {
        self.entries[i].0.as_str()
    }

    /// The value at a place in the order of insertion.
    pub fn value_at(&self, i: usize) -> (r: &T)
        requires
            i < self@.len(),
        ensures
            *r == self@[i as int].1,
    {
        &self.entries[i].1
    }

    fn find(&self, key: &str) -> (r: Option<usize>)
        ensures
            match r {
                Some(i) => i < self@.len() && key_from(self@, key@, 0) == Some(i as int),
                None => key_from(self@, key@, 0) is None,
            },
    {
        let mut i: usize = 0;
        while i < self.entries.len()
            invariant
                i <= self.entries@.len(),
                key_from(self@, key@, 0) == key_from(self@, key@, i as int),
            decreases self.entries@.len() - i,
        {
            if str_eq(self.entries[i].0.as_str(), key) {
                return Some(i);
            }
            i = i + 1;
        }
        None
    }

    pub fn get(&self, key: &str) -> (r: Option<&T>)
        ensures
            match r {
                Some(v) => lookup(self@, key@) == Some(*v),
                None => lookup(self@, key@) is None,
            },
    {
        match self.find(key) {
            Some(i) => Some(&self.entries[i].1),
            None => None,
        }
    }

    pub fn contains_key(&self, key: &str) -> (r: bool)
        ensures
            r == (lookup(self@, key@) is Some),
    {
        self.find(key).is_some()
    }

    /// Binds `key` to `value`, in place of what it was bound to.
    pub fn insert(&mut self, key: String, value: T)
        ensures
            final(self)@ == inserted(old(self)@, key@, value),
    {
        proof {
            use_type_invariant(&*self);
            lemma_inserted_unique(self@, key@, value);
        }
        let found = self.find(key.as_str());
        let mut entries: Vec<(String, T)> = Vec::new();
        std::mem::swap(&mut entries, &mut self.entries);
        let ghost before = entries@;
        match found {
            Some(i) => {
                entries[i] = (key, value);
            },
            None => {
                entries.push((key, value));
            },
        }
        assert(pairs(entries@) =~= inserted(pairs(before), key@, value));
        self.entries = entries;
    }
}

impl Clone for StrMap<String> {
    fn clone(&self) -> (r: StrMap<String>)
        ensures
            r@ == self@,
    {
        proof {
            use_type_invariant(self);
        }
        let mut entries: Vec<(String, String)> = Vec::new();
        let mut i: usize = 0;
        while i < self.entries.len()
            invariant
                i <= self.entries@.len(),
                entries@ == self.entries@.take(i as int),
            decreases self.entries@.len() - i,
        {
            let entry = &self.entries[i];
            entries.push((entry.0.clone(), entry.1.clone()));
            i = i + 1;
            assert(entries@ =~= self.entries@.take(i as int));
        }
        assert(entries@ =~= self.entries@);
        StrMap { entries }
    }
}

} // verus!
