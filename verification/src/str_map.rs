//! Insertion-ordered maps keyed by strings or pairs of strings.
//!
//! The runtime keys many of its tables by entity, variable and binding
//! names. `KeyMap` keeps its entries in a vector, with every key present at
//! most once, so that lookups, updates and iteration are all specified over
//! a `Map` view of the keys and an ordered sequence of entries.

use vstd::prelude::*;

verus! {

/// The map that a sequence of entries denotes: later entries override
/// earlier ones with the same key.
pub open spec fn entries_map<KV, V>(s: Seq<(KV, V)>) -> Map<KV, V>
    decreases s.len(),
{
    if s.len() == 0 {
        Map::empty()
    } else {
        entries_map(s.drop_last()).insert(s.last().0, s.last().1)
    }
}

/// No key occurs twice in the sequence of entries.
pub open spec fn keys_distinct<KV, V>(s: Seq<(KV, V)>) -> bool {
    forall|i: int, j: int| 0 <= i < j < s.len() ==> s[i].0 != s[j].0
}

/// `m` extended, in order, with every entry of `s`.
pub open spec fn insert_all_entries<KV, V>(m: Map<KV, V>, s: Seq<(KV, V)>) -> Map<
    KV,
    V,
>
    decreases s.len(),
{
    if s.len() == 0 {
        m
    } else {
        insert_all_entries(m, s.drop_last()).insert(s.last().0, s.last().1)
    }
}

/// A key is in the denoted map exactly when some entry carries it.
pub proof fn lemma_entries_map_contains<KV, V>(s: Seq<(KV, V)>, k: KV)
    ensures
        entries_map(s).contains_key(k) <==> exists|i: int| 0 <= i < s.len() && #[trigger] s[i].0 == k,
    decreases s.len(),
{
    if s.len() > 0 {
        lemma_entries_map_contains(s.drop_last(), k);
        if entries_map(s.drop_last()).contains_key(k) {
            let i = choose|i: int| 0 <= i < s.drop_last().len() && #[trigger] s.drop_last()[i].0 == k;
            assert(s[i].0 == k);
        }
        if exists|i: int| 0 <= i < s.len() && #[trigger] s[i].0 == k {
            let i = choose|i: int| 0 <= i < s.len() && #[trigger] s[i].0 == k;
            if i < s.len() - 1 {
                assert(s.drop_last()[i].0 == k);
            }
        }
    }
}

/// With distinct keys, the entry at index `i` is what the map holds for its key.
pub proof fn lemma_entries_map_index<KV, V>(s: Seq<(KV, V)>, i: int)
    requires
        keys_distinct(s),
        0 <= i < s.len(),
    ensures
        entries_map(s).contains_key(s[i].0),
        entries_map(s)[s[i].0] == s[i].1,
    decreases s.len(),
{
    if i < s.len() - 1 {
        lemma_entries_map_index(s.drop_last(), i);
        assert(s.drop_last()[i] == s[i]);
    }
}

/// Replacing the value of an existing entry updates the denoted map at that key.
pub proof fn lemma_entries_map_update<KV, V>(s: Seq<(KV, V)>, i: int, v: V)
    requires
        keys_distinct(s),
        0 <= i < s.len(),
    ensures
        entries_map(s.update(i, (s[i].0, v))) == entries_map(s).insert(s[i].0, v),
    decreases s.len(),
{
    let k = s[i].0;
    let t = s.update(i, (k, v));
    if i == s.len() - 1 {
        assert(t.drop_last() =~= s.drop_last());
        assert(entries_map(t) =~= entries_map(s).insert(k, v));
    } else {
        assert(t.drop_last() =~= s.drop_last().update(i, (k, v)));
        lemma_entries_map_update(s.drop_last(), i, v);
        assert(s.last().0 != k);
        assert(entries_map(t) =~= entries_map(s).insert(k, v));
    }
}

/// With distinct keys, the denoted map has one key per entry.
pub proof fn lemma_entries_map_len<KV, V>(s: Seq<(KV, V)>)
    requires
        keys_distinct(s),
    ensures
        entries_map(s).dom().finite(),
        entries_map(s).len() == s.len(),
    decreases s.len(),
{
    if s.len() > 0 {
        lemma_entries_map_len(s.drop_last());
        lemma_entries_map_contains(s.drop_last(), s.last().0);
        assert(!entries_map(s.drop_last()).contains_key(s.last().0));
    }
}

/// Inserting the entries of `s` one by one into `m` gives `m` overridden by
/// the map that `s` denotes.
pub proof fn lemma_insert_all_entries<KV, V>(m: Map<KV, V>, s: Seq<(KV, V)>)
    ensures
        insert_all_entries(m, s) == m.union_prefer_right(entries_map(s)),
    decreases s.len(),
{
    if s.len() == 0 {
        assert(m.union_prefer_right(entries_map(s)) =~= m);
    } else {
        lemma_insert_all_entries(m, s.drop_last());
        assert(insert_all_entries(m, s) =~= m.union_prefer_right(entries_map(s)));
    }
}

/// Keys whose equality can be decided by comparing their views.
pub trait MapKey: View + Sized {
    fn key_eq(&self, other: &Self) -> (b: bool)
        ensures
            b == (self@ == other@),
    ;

    fn key_clone(&self) -> (r: Self)
        ensures
            r@ == self@,
    ;
}

impl MapKey for String {
    fn key_eq(&self, other: &Self) -> (b: bool) {
        *self == *other
    }

    fn key_clone(&self) -> (r: Self) {
        self.clone()
    }
}

impl MapKey for (String, String) {
    fn key_eq(&self, other: &Self) -> (b: bool) {
        self.0 == other.0 && self.1 == other.1
    }

    fn key_clone(&self) -> (r: Self) {
        (self.0.clone(), self.1.clone())
    }
}

/// A map that keeps its entries in insertion order, each key at most once.
pub struct KeyMap<K: MapKey, V> {
    entries: Vec<(K, V)>,
}

/// A map from strings to values in insertion order.
pub type StrMap<V> = KeyMap<String, V>;

impl<K: MapKey, V> KeyMap<K, V> {
    /// The entries, keys taken by their characters, in insertion order.
    pub closed spec fn entries_view(&self) -> Seq<(K::V, V)> {
        self.entries@.map_values(|e: (K, V)| (e.0@, e.1))
    }

    #[verifier::type_invariant]
    spec fn inv(&self) -> bool {
        keys_distinct(self.entries_view())
    }

    /// An empty map.
    pub fn new() -> (m: Self)
        ensures
            m@ == Map::<K::V, V>::empty(),
            m.entries_view() == Seq::<(K::V, V)>::empty(),
    {
        let m = KeyMap { entries: Vec::new() };
        assert(m.entries_view() =~= Seq::<(K::V, V)>::empty());
        m
    }

    /// Number of entries, which is the number of keys.
    pub fn len(&self) -> (n: usize)
        ensures
            n == self.entries_view().len(),
            n == self@.len(),
            keys_distinct(self.entries_view()),
    {
        proof {
            use_type_invariant(self);
            lemma_entries_map_len(self.entries_view());
        }
        self.entries.len()
    }

    /// Index of the entry with the given key, if there is one.
    fn find(&self, key: &K) -> (r: Option<usize>)
        ensures
            match r {
                Some(i) => i < self.entries_view().len() && self.entries_view()[i as int].0 == key@,
                None => forall|i: int|
                    0 <= i < self.entries_view().len() ==> #[trigger] self.entries_view()[i].0
                        != key@,
            },
    {
        let mut i: usize = 0;
        while i < self.entries.len()
            invariant
                i <= self.entries.len(),
                forall|j: int| 0 <= j < i ==> #[trigger] self.entries_view()[j].0 != key@,
            decreases self.entries.len() - i,
        {
            if self.entries[i].0.key_eq(key) {
                return Some(i);
            }
            i = i + 1;
        }
        None
    }

    /// Whether some entry has the given key.
    pub fn contains_key(&self, key: &K) -> (b: bool)
        ensures
            b == self@.contains_key(key@),
    {
        proof {
            lemma_entries_map_contains(self.entries_view(), key@);
        }
        self.find(key).is_some()
    }

    /// The value stored under the given key.
    pub fn get(&self, key: &K) -> (r: Option<&V>)
        ensures
            match r {
                Some(v) => self@.contains_key(key@) && *v == self@[key@],
                None => !self@.contains_key(key@),
            },
    {
        proof {
            use_type_invariant(self);
            lemma_entries_map_contains(self.entries_view(), key@);
        }
        match self.find(key) {
            Some(i) => {
                proof {
                    lemma_entries_map_index(self.entries_view(), i as int);
                }
                Some(&self.entries[i].1)
            },
            None => None,
        }
    }

    /// The key and value of the entry at position `i`.
    pub fn entry_at(&self, i: usize) -> (r: (&K, &V))
        requires
            i < self.entries_view().len(),
        ensures
            r.0@ == self.entries_view()[i as int].0,
            *r.1 == self.entries_view()[i as int].1,
            self@.contains_key(r.0@),
            self@[r.0@] == *r.1,
    {
        proof {
            use_type_invariant(self);
            lemma_entries_map_index(self.entries_view(), i as int);
        }
        let e = &self.entries[i];
        (&e.0, &e.1)
    }

    /// Stores `value` under `key`, replacing a previous value in place or
    /// appending a new entry at the end.
    pub fn insert(&mut self, key: K, value: V)
        ensures
            final(self)@ == old(self)@.insert(key@, value),
            old(self)@.contains_key(key@) ==> final(self).entries_view().len()
                == old(self).entries_view().len(),
            !old(self)@.contains_key(key@) ==> final(self).entries_view() == old(
                self,
            ).entries_view().push((key@, value)),
    {
        proof {
            use_type_invariant(&*self);
            lemma_entries_map_contains(self.entries_view(), key@);
        }
        let found = self.find(&key);
        let ghost s = self.entries_view();
        let mut entries: Vec<(K, V)> = Vec::new();
        std::mem::swap(&mut entries, &mut self.entries);
        assert(entries@.map_values(|e: (K, V)| (e.0@, e.1)) == s);
        match found {
            Some(i) => {
                proof {
                    lemma_entries_map_update(s, i as int, value);
                }
                entries.set(i, (key, value));
                assert(entries@.map_values(|e: (K, V)| (e.0@, e.1)) =~= s.update(
                    i as int,
                    (s[i as int].0, value),
                ));
            },
            None => {
                entries.push((key, value));
                assert(entries@.map_values(|e: (K, V)| (e.0@, e.1)) =~= s.push((key@, value)));
                assert(s.push((key@, value)).drop_last() =~= s);
            },
        }
        self.entries = entries;
    }

    /// Stores every entry of `other`, in its order, over the entries here:
    /// where both hold a key, the value of `other` wins.
    pub fn extend(&mut self, other: KeyMap<K, V>)
        ensures
            final(self)@ == old(self)@.union_prefer_right(other@),
    {
        proof {
            use_type_invariant(&other);
        }
        let ghost start = self@;
        let ghost es = other.entries_view();
        let KeyMap { entries } = other;
        let n = entries.len();
        let mut rest = entries;
        let mut k: usize = 0;
        assert(es.subrange(0, 0) =~= Seq::<(K::V, V)>::empty());
        while k < n
            invariant
                k <= n,
                n == es.len(),
                rest@.len() == n - k,
                forall|j: int|
                    0 <= j < rest@.len() ==> (#[trigger] rest@[j]).0@ == es[k + j].0 && rest@[j].1
                        == es[k + j].1,
                self@ == insert_all_entries(start, es.subrange(0, k as int)),
            decreases n - k,
        {
            let ghost old_rest = rest@;
            let (key, value) = rest.remove(0);
            assert(key@ == es[k as int].0 && value == es[k as int].1);
            assert forall|j: int| 0 <= j < rest@.len() implies (#[trigger] rest@[j]).0@ == es[k + 1
                + j].0 && rest@[j].1 == es[k + 1 + j].1 by {
                assert(rest@[j] == old_rest[j + 1]);
            }
            self.insert(key, value);
            assert(es.subrange(0, k + 1).drop_last() =~= es.subrange(0, k as int));
            k = k + 1;
        }
        assert(es.subrange(0, n as int) =~= es);
        proof {
            lemma_insert_all_entries(start, es);
        }
    }
}

impl<K: MapKey, V: Clone> Clone for KeyMap<K, V> {
    /// The same keys in the same order, each value cloned.
    fn clone(&self) -> (r: Self)
        ensures
            r.entries_view().len() == self.entries_view().len(),
            forall|i: int|
                0 <= i < r.entries_view().len() ==> {
                    &&& (#[trigger] r.entries_view()[i]).0 == self.entries_view()[i].0
                    &&& cloned(self.entries_view()[i].1, r.entries_view()[i].1)
                },
    {
        proof {
            use_type_invariant(self);
        }
        let mut entries: Vec<(K, V)> = Vec::new();
        let mut i: usize = 0;
        while i < self.entries.len()
            invariant
                i <= self.entries.len(),
                keys_distinct(self.entries_view()),
                entries@.len() == i,
                forall|j: int|
                    0 <= j < i ==> {
                        &&& (#[trigger] entries@[j]).0@ == self.entries_view()[j].0
                        &&& cloned(self.entries_view()[j].1, entries@[j].1)
                    },
            decreases self.entries.len() - i,
        {
            let e = &self.entries[i];
            entries.push((e.0.key_clone(), e.1.clone()));
            i = i + 1;
        }
        let r = KeyMap { entries };
        assert(r.entries_view().len() == self.entries_view().len());
        r
    }
}

impl<K: MapKey, V> View for KeyMap<K, V> {
    type V = Map<K::V, V>;

    open spec fn view(&self) -> Map<K::V, V> {
        entries_map(self.entries_view())
    }
}

} // verus!
