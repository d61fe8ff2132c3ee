//! Communication ids: the two-way table between the names the runtime uses
//! for entities, objects and commands and the integer ids the controller
//! sends over the wire.

pub mod tcp_interface;

use vstd::prelude::*;
use std::collections::HashMap;
use crate::str_map::{
    StrMap, insert_all_entries, lemma_insert_all_entries, entries_map, keys_distinct,
    lemma_entries_map_index,
};

verus! {

broadcast use vstd::std_specs::hash::group_hash_axioms;

/// The view of a list of name/id pairs.
pub open spec fn pairs_view(s: Seq<(String, i32)>) -> Seq<(Seq<char>, i32)> {
    s.map_values(|p: (String, i32)| (p.0@, p.1))
}

/// `m` extended, in order, with the id-to-name direction of every pair.
pub open spec fn insert_all_names(m: Map<i32, Seq<char>>, s: Seq<(Seq<char>, i32)>) -> Map<
    i32,
    Seq<char>,
>
    decreases s.len(),
{
    if s.len() == 0 {
        m
    } else {
        insert_all_names(m, s.drop_last()).insert(s.last().1, s.last().0)
    }
}

/// `m` extended, in order, with the name-to-id direction of every pair.
pub open spec fn insert_all_ids(m: Map<Seq<char>, i32>, s: Seq<(Seq<char>, i32)>) -> Map<
    Seq<char>,
    i32,
> {
    insert_all_entries(m, s)
}

/// `name` is registered, and the id registered for it is registered with
/// `name` as its name: `get_name(get_id(name))` gives `name` back.
pub open spec fn registered_pair(ids: Map<Seq<char>, i32>, names: Map<i32, Seq<char>>, name: Seq<char>) -> bool {
    &&& ids.contains_key(name)
    &&& names.contains_key(ids[name])
    &&& names[ids[name]] == name
}

/// Registering `id` under `name` pairs them, and keeps every pair that
/// neither the name nor the id touches: `get_id` and `get_name` are inverse
/// on each registered pair that no later registration touched.
pub proof fn lemma_insert_pairs(
    ids: Map<Seq<char>, i32>,
    names: Map<i32, Seq<char>>,
    id: i32,
    name: Seq<char>,
    other: Seq<char>,
)
    ensures
        registered_pair(ids.insert(name, id), names.insert(id, name), name),
        registered_pair(ids, names, other) && other != name && ids[other] != id ==> registered_pair(
            ids.insert(name, id),
            names.insert(id, name),
            other,
        ),
{
}

/// No pair of `s` carries the name `name` or the id `id`.
pub open spec fn untouched_by(s: Seq<(Seq<char>, i32)>, name: Seq<char>, id: i32) -> bool {
    forall|j: int| 0 <= j < s.len() ==> #[trigger] s[j].0 != name && s[j].1 != id
}

/// Registering a list of pairs in order (as `insert_all` does) keeps every
/// registered pair that no pair of the list touches, by name or by id, and
/// pairs each name of the list with its id when no later pair of the list
/// touches either: `get_id` and `get_name` stay inverse on those.
pub proof fn lemma_insert_all_pairs(
    ids: Map<Seq<char>, i32>,
    names: Map<i32, Seq<char>>,
    s: Seq<(Seq<char>, i32)>,
)
    ensures
        forall|other: Seq<char>|
            registered_pair(ids, names, other) && untouched_by(s, other, ids[other])
                ==> #[trigger] registered_pair(insert_all_ids(ids, s), insert_all_names(names, s), other)
                && insert_all_ids(ids, s)[other] == ids[other],
        forall|i: int|
            0 <= i < s.len() && untouched_by(s.skip(i + 1), s[i].0, s[i].1) ==> #[trigger] registered_pair(
                insert_all_ids(ids, s),
                insert_all_names(names, s),
                s[i].0,
            ) && insert_all_ids(ids, s)[s[i].0] == s[i].1,
    decreases s.len(),
{
    if s.len() > 0 {
        let p = s.drop_last();
        let (n, id) = s.last();
        lemma_insert_all_pairs(ids, names, p);
        assert(insert_all_ids(ids, s) == insert_all_ids(ids, p).insert(n, id));
        assert(insert_all_names(names, s) == insert_all_names(names, p).insert(id, n));
        assert forall|other: Seq<char>|
            registered_pair(ids, names, other) && untouched_by(s, other, ids[other])
                implies #[trigger] registered_pair(insert_all_ids(ids, s), insert_all_names(names, s), other)
                && insert_all_ids(ids, s)[other] == ids[other] by {
            assert forall|j: int| 0 <= j < p.len() implies #[trigger] p[j].0 != other && p[j].1 != ids[other] by {
                assert(p[j] == s[j]);
            }
            assert(s[s.len() - 1].0 != other && s[s.len() - 1].1 != ids[other]);
            assert(registered_pair(insert_all_ids(ids, p), insert_all_names(names, p), other));
            lemma_insert_pairs(insert_all_ids(ids, p), insert_all_names(names, p), id, n, other);
        }
        assert forall|i: int|
            0 <= i < s.len() && untouched_by(s.skip(i + 1), s[i].0, s[i].1) implies #[trigger] registered_pair(
                insert_all_ids(ids, s),
                insert_all_names(names, s),
                s[i].0,
            ) && insert_all_ids(ids, s)[s[i].0] == s[i].1 by {
            if i == s.len() - 1 {
                lemma_insert_pairs(insert_all_ids(ids, p), insert_all_names(names, p), id, n, n);
            } else {
                assert forall|j: int| 0 <= j < p.skip(i + 1).len() implies #[trigger] p.skip(i + 1)[j].0 != s[i].0
                    && p.skip(i + 1)[j].1 != s[i].1 by {
                    assert(p.skip(i + 1)[j] == s.skip(i + 1)[j]);
                }
                assert(p[i] == s[i]);
                assert(registered_pair(insert_all_ids(ids, p), insert_all_names(names, p), p[i].0));
                let last = s.skip(i + 1).len() - 1;
                assert(s.skip(i + 1)[last] == s.last());
                lemma_insert_pairs(insert_all_ids(ids, p), insert_all_names(names, p), id, n, s[i].0);
            }
        }
    }
}

/// Registering the entries of a map (as `insert_map` does) is registering
/// its entries in order, so the same pairs survive and are formed as in
/// `lemma_insert_all_pairs`.
pub proof fn lemma_insert_map_pairs(
    ids: Map<Seq<char>, i32>,
    names: Map<i32, Seq<char>>,
    m: StrMap<i32>,
)
    ensures
        ids.union_prefer_right(m@) == insert_all_ids(ids, m.entries_view()),
        forall|other: Seq<char>|
            registered_pair(ids, names, other) && untouched_by(m.entries_view(), other, ids[other])
                ==> #[trigger] registered_pair(
                ids.union_prefer_right(m@),
                insert_all_names(names, m.entries_view()),
                other,
            ),
{
    lemma_insert_all_entries(ids, m.entries_view());
    lemma_insert_all_pairs(ids, names, m.entries_view());
    assert forall|other: Seq<char>|
        registered_pair(ids, names, other) && untouched_by(m.entries_view(), other, ids[other])
            implies #[trigger] registered_pair(
            ids.union_prefer_right(m@),
            insert_all_names(names, m.entries_view()),
            other,
        ) by {
        assert(registered_pair(insert_all_ids(ids, m.entries_view()), insert_all_names(names, m.entries_view()), other));
    }
}

/// Looking up what was just registered gives it back, in both directions.
pub proof fn lemma_insert_then_lookup(
    ids: Map<Seq<char>, i32>,
    names: Map<i32, Seq<char>>,
    id: i32,
    name: Seq<char>,
)
    ensures
        ids.insert(name, id).contains_key(name),
        ids.insert(name, id)[name] == id,
        names.insert(id, name).contains_key(id),
        names.insert(id, name)[id] == name,
{
}

/// When no name occurs twice in the pairs, every name is registered under
/// the id it comes with, and every name registered before and not among the
/// pairs keeps its id.
pub proof fn lemma_insert_all_distinct_names(ids: Map<Seq<char>, i32>, s: Seq<(Seq<char>, i32)>)
    requires
        keys_distinct(s),
    ensures
        forall|i: int|
            0 <= i < s.len() ==> #[trigger] insert_all_ids(ids, s).contains_key(s[i].0)
                && insert_all_ids(ids, s)[s[i].0] == s[i].1,
        forall|k: Seq<char>|
            ids.contains_key(k) && !entries_map(s).contains_key(k) ==> #[trigger] insert_all_ids(
                ids,
                s,
            ).contains_key(k) && insert_all_ids(ids, s)[k] == ids[k],
{
    lemma_insert_all_entries(ids, s);
    assert forall|i: int| 0 <= i < s.len() implies #[trigger] insert_all_ids(ids, s).contains_key(
        s[i].0,
    ) && insert_all_ids(ids, s)[s[i].0] == s[i].1 by {
        lemma_entries_map_index(s, i);
    }
}

pub struct CommIds {
    id_map: StrMap<i32>,
    name_map: HashMap<i32, String>,
}

impl CommIds {
    /// The id registered for each name.
    pub closed spec fn ids(&self) -> Map<Seq<char>, i32> {
        self.id_map@
    }

    /// The name registered for each id.
    pub closed spec fn names(&self) -> Map<i32, Seq<char>> {
        self.name_map@.map_values(|s: String| s@)
    }

    pub fn new() -> (c: Self)
        ensures
            c.ids() == Map::<Seq<char>, i32>::empty(),
            c.names() == Map::<i32, Seq<char>>::empty(),
    {
        let c = Self { id_map: StrMap::new(), name_map: HashMap::new() };
        assert(c.names() =~= Map::<i32, Seq<char>>::empty());
        c
    }

    /// Registers `name` under `id`, in both directions.
    pub fn insert(&mut self, id: i32, name: &str)
        ensures
            final(self).ids() == old(self).ids().insert(name@, id),
            final(self).names() == old(self).names().insert(id, name@),
    {
        let ghost names = self.names();
        self.id_map.insert(name.to_owned(), id);
        self.name_map.insert(id, name.to_owned());
        assert(self.names() =~= names.insert(id, name@));
    }

    /// Registers every pair, in order; a later pair overrides an earlier
    /// one with the same name or the same id.
    pub fn insert_all(&mut self, comm_ids: &Vec<(String, i32)>)
        ensures
            final(self).ids() == insert_all_ids(old(self).ids(), pairs_view(comm_ids@)),
            final(self).names() == insert_all_names(old(self).names(), pairs_view(comm_ids@)),
    {
        let ghost s = pairs_view(comm_ids@);
        let ghost names0 = self.names();
        let ghost ids0 = self.ids();
        let mut i: usize = 0;
        while i < comm_ids.len()
            invariant
                i <= comm_ids.len(),
                s == pairs_view(comm_ids@),
                self.ids() == ids0,
                self.names() == insert_all_names(names0, s.subrange(0, i as int)),
            decreases comm_ids.len() - i,
        {
            let (name, id) = &comm_ids[i];
            let ghost names = self.names();
            self.name_map.insert(*id, name.clone());
            proof {
                assert(s.subrange(0, i + 1).drop_last() =~= s.subrange(0, i as int));
                assert(s[i as int] == (name@, *id));
            }
            assert(self.names() =~= names.insert(*id, name@));
            i = i + 1;
        }
        assert(s.subrange(0, i as int) =~= s);
        let mut j: usize = 0;
        while j < comm_ids.len()
            invariant
                j <= comm_ids.len(),
                s == pairs_view(comm_ids@),
                self.names() == insert_all_names(names0, s),
                self.ids() == insert_all_entries(ids0, s.subrange(0, j as int)),
            decreases comm_ids.len() - j,
        {
            let (name, id) = &comm_ids[j];
            self.id_map.insert(name.clone(), *id);
            proof {
                assert(s.subrange(0, j + 1).drop_last() =~= s.subrange(0, j as int));
                assert(s[j as int] == (name@, *id));
            }
            j = j + 1;
        }
        assert(s.subrange(0, j as int) =~= s);
    }

    /// Registers every entry of a map, in the map's order: names take the
    /// ids of the map, and each id takes the last name the map gives it.
    pub fn insert_map(&mut self, comm_ids: &StrMap<i32>)
        ensures
            final(self).ids() == old(self).ids().union_prefer_right(comm_ids@),
            final(self).names() == insert_all_names(old(self).names(), comm_ids.entries_view()),
    {
        let ghost s = comm_ids.entries_view();
        let ghost names0 = self.names();
        let ghost ids0 = self.ids();
        let n = comm_ids.len();
        let mut i: usize = 0;
        while i < n
            invariant
                i <= n,
                n == s.len(),
                s == comm_ids.entries_view(),
                self.ids() == ids0,
                self.names() == insert_all_names(names0, s.subrange(0, i as int)),
            decreases n - i,
        {
            let (name, id) = comm_ids.entry_at(i);
            let ghost names = self.names();
            self.name_map.insert(*id, name.clone());
            proof {
                assert(s.subrange(0, i + 1).drop_last() =~= s.subrange(0, i as int));
            }
            assert(self.names() =~= names.insert(*id, name@));
            i = i + 1;
        }
        assert(s.subrange(0, i as int) =~= s);
        let mut j: usize = 0;
        while j < n
            invariant
                j <= n,
                n == s.len(),
                s == comm_ids.entries_view(),
                self.names() == insert_all_names(names0, s),
                self.ids() == insert_all_entries(ids0, s.subrange(0, j as int)),
            decreases n - j,
        {
            let (name, id) = comm_ids.entry_at(j);
            self.id_map.insert(name.clone(), *id);
            proof {
                assert(s.subrange(0, j + 1).drop_last() =~= s.subrange(0, j as int));
            }
            j = j + 1;
        }
        proof {
            assert(s.subrange(0, j as int) =~= s);
            lemma_insert_all_entries(ids0, s);
        }
    }

    /// Whether a name has been registered.
    pub fn has_id(&self, name: &str) -> (b: bool)
        ensures
            b == self.ids().contains_key(name@),
    {
        self.id_map.contains_key(&name.to_owned())
    }

    /// Whether an id has been registered.
    pub fn has_name(&self, id: i32) -> (b: bool)
        ensures
            b == self.names().contains_key(id),
    {
        self.name_map.contains_key(&id)
    }

    /// The id registered for `name`.
    pub fn get_id(&self, name: &str) -> (id: i32)
        requires
            self.ids().contains_key(name@),
        ensures
            id == self.ids()[name@],
    {
        *self.id_map.get(&name.to_owned()).unwrap()
    }

    /// The name registered for `id`.
    pub fn get_name(&self, id: i32) -> (name: &str)
        requires
            self.names().contains_key(id),
        ensures
            name@ == self.names()[id],
    {
        self.name_map.get(&id).unwrap().as_str()
    }
}

} // verus!
