//! Comparing learned models: fresh binding names for composite states merged
//! from two others, renaming and merging facts, comparing fact patterns,
//! functions and causal models, and comparing the effects of two pairs of a
//! requirement model and a causal model.

use vstd::prelude::*;
use crate::str_map::{KeyMap, StrMap};
use crate::types::pattern::{item_bindings, item_cloned, pattern_bindings, strings_view, PatternItem};
use crate::types::functions::Function;
use crate::runtime::pattern_matching::{
    as_vec_reads, clones_equal, compare_commands, compare_imdls, compare_pattern_items, entities_agree, eq_answer,
    eq_answers, lemma_value_match_exclusive,
    items_compare_answer, patterns_compare_answer, value_match_answer, value_matches_pub,
    values_match_answer,
    value_ops_callable,
};
use crate::types::models::{IMdl, Mdl, MdlLeftValue, MdlRightValue};
use crate::types::cst::{decl_views, Cst};
use crate::types::{EntityDeclaration, EntityPatternValue, Fact, MkVal};
use crate::strings::{
    decimal, is_digit_char, is_prefix, lemma_decimal_injective, lemma_decimal_shape, lemma_seq_lt_total,
    push_decimal, seq_lt, starts_with, str_eq, str_lt,
};

verus! {

/// The binding of the premise entity.
pub open spec fn premise_entity_binding() -> Seq<char> {
    seq!['P', 'E']
}

/// The binding of the entity a command acts on.
pub open spec fn command_entity_binding() -> Seq<char> {
    seq!['C', 'M', 'D', '_', 'E']
}

/// Bindings that keep their own name when merged.
pub open spec fn is_special_var(v: Seq<char>) -> bool {
    v == premise_entity_binding() || v == command_entity_binding()
}

/// The prefix that classifies a binding name: premise (`P`), command (`CMD`),
/// consequent (`C`) or other (`v`).
pub open spec fn var_prefix(v: Seq<char>) -> Seq<char> {
    if is_prefix(seq!['P'], v) {
        seq!['P']
    } else if is_prefix(seq!['C', 'M', 'D'], v) {
        seq!['C', 'M', 'D']
    } else if is_prefix(seq!['C'], v) {
        seq!['C']
    } else {
        seq!['v']
    }
}

/// The two names in increasing lexicographic order.
pub open spec fn ordered_pair(v1: Seq<char>, v2: Seq<char>) -> (Seq<char>, Seq<char>) {
    if seq_lt(v1, v2) {
        (v1, v2)
    } else {
        (v2, v1)
    }
}

/// The two bindings of a pair may come in either order: both orders denote
/// the same ordered pair, so `get_new_var_name(a, b)` and
/// `get_new_var_name(b, a)` look up and name the same entry.
pub proof fn lemma_ordered_pair_symmetric(a: Seq<char>, b: Seq<char>)
    ensures
        ordered_pair(a, b) == ordered_pair(b, a),
{
    lemma_seq_lt_total(a, b);
}

/// The prefix classifying `var`.
pub fn get_var_prefix(var: &str) -> (p: String)
    ensures
        p@ == var_prefix(var@),
{
    proof {
        reveal_strlit("P");
        reveal_strlit("CMD");
        reveal_strlit("C");
        reveal_strlit("v");
        assert("P"@ =~= seq!['P']);
        assert("CMD"@ =~= seq!['C', 'M', 'D']);
        assert("C"@ =~= seq!['C']);
        assert("v"@ =~= seq!['v']);
    }
    if starts_with(var, "P") {
        "P".to_owned()
    } else if starts_with(var, "CMD") {
        "CMD".to_owned()
    } else if starts_with(var, "C") {
        "C".to_owned()
    } else {
        "v".to_owned()
    }
}

/// The two names in increasing lexicographic order.
pub fn order_vars<'a>(v1: &'a str, v2: &'a str) -> (r: (&'a str, &'a str))
    ensures
        (r.0@, r.1@) == ordered_pair(v1@, v2@),
{
    if str_lt(v1, v2) {
        (v1, v2)
    } else {
        (v2, v1)
    }
}

/// How many names have been handed out under a prefix.
pub open spec fn counter_of(counters: Map<Seq<char>, usize>, prefix: Seq<char>) -> nat {
    if counters.contains_key(prefix) {
        counters[prefix] as nat
    } else {
        0
    }
}

/// The name a new pair whose first binding is `v1` receives.
pub open spec fn fresh_var_name(counters: Map<Seq<char>, usize>, v1: Seq<char>) -> Seq<char> {
    if is_special_var(v1) {
        v1
    } else {
        var_prefix(v1) + decimal(counter_of(counters, var_prefix(v1)))
    }
}

/// The counters after naming a new pair whose first binding is `v1`.
pub open spec fn counters_after(counters: Map<Seq<char>, usize>, v1: Seq<char>) -> Map<
    Seq<char>,
    usize,
> {
    if is_special_var(v1) {
        counters
    } else {
        counters.insert(var_prefix(v1), (counter_of(counters, var_prefix(v1)) + 1) as usize)
    }
}

/// A new pair can be named without a counter overflowing.
pub open spec fn can_name(counters: Map<Seq<char>, usize>, v1: Seq<char>) -> bool {
    is_special_var(v1) || counter_of(counters, var_prefix(v1)) < usize::MAX
}

/// One of the prefixes that classify binding names.
pub open spec fn is_var_prefix(p: Seq<char>) -> bool {
    p == seq!['P'] || p == seq!['C', 'M', 'D'] || p == seq!['C'] || p == seq!['v']
}

/// Only `PE` and `CMD_E` may name more than one pair.
pub open spec fn names_distinct(names: Map<(Seq<char>, Seq<char>), Seq<char>>) -> bool {
    forall|p1: (Seq<char>, Seq<char>), p2: (Seq<char>, Seq<char>)|
        #![trigger names[p1], names[p2]]
        names.contains_key(p1) && names.contains_key(p2) && p1 != p2 && names[p1] == names[p2]
            ==> is_special_var(names[p1])
}

/// Every other name is a prefix followed by a number that its counter has
/// already passed.
pub open spec fn names_counted(
    names: Map<(Seq<char>, Seq<char>), Seq<char>>,
    counters: Map<Seq<char>, usize>,
) -> bool {
    forall|p: (Seq<char>, Seq<char>)|
        #![trigger names[p]]
        names.contains_key(p) && !is_special_var(names[p]) ==> exists|pre: Seq<char>, k: nat|
            is_var_prefix(pre) && k < counter_of(counters, pre) && names[p] == pre + decimal(k)
}

/// The naming state is one that fresh naming can produce.
pub open spec fn naming_consistent(
    names: Map<(Seq<char>, Seq<char>), Seq<char>>,
    counters: Map<Seq<char>, usize>,
) -> bool {
    names_distinct(names) && names_counted(names, counters)
}

/// A prefix followed by a number determines both.
pub proof fn lemma_generated_name_parts(pre1: Seq<char>, k1: nat, pre2: Seq<char>, k2: nat)
    requires
        is_var_prefix(pre1),
        is_var_prefix(pre2),
        pre1 + decimal(k1) == pre2 + decimal(k2),
    ensures
        pre1 == pre2,
        k1 == k2,
{
    let s = pre1 + decimal(k1);
    lemma_decimal_shape(k1);
    lemma_decimal_shape(k2);
    assert(s[0] == pre1[0]);
    assert(s[0] == (pre2 + decimal(k2))[0]);
    if pre1 == seq!['C', 'M', 'D'] && pre2 == seq!['C'] {
        assert(s[1] == 'M');
        assert((pre2 + decimal(k2))[1] == decimal(k2)[0]);
        assert(is_digit_char(decimal(k2)[0]));
    }
    if pre2 == seq!['C', 'M', 'D'] && pre1 == seq!['C'] {
        assert((pre2 + decimal(k2))[1] == 'M');
        assert(s[1] == decimal(k1)[0]);
        assert(is_digit_char(decimal(k1)[0]));
    }
    assert(pre1 == pre2);
    assert(decimal(k1) =~= s.subrange(pre1.len() as int, s.len() as int));
    assert(decimal(k2) =~= (pre2 + decimal(k2)).subrange(pre2.len() as int, s.len() as int));
    lemma_decimal_injective(k1, k2);
}

/// A prefix followed by a number is never `PE` or `CMD_E`.
pub proof fn lemma_generated_name_not_special(pre: Seq<char>, k: nat)
    requires
        is_var_prefix(pre),
    ensures
        !is_special_var(pre + decimal(k)),
{
    let s = pre + decimal(k);
    lemma_decimal_shape(k);
    assert(is_digit_char(decimal(k)[0]));
    if s == premise_entity_binding() {
        assert(s[0] == 'P');
        assert(s[1] == decimal(k)[0]);
    }
    if s == command_entity_binding() {
        assert(s[0] == 'C');
        if pre == seq!['C'] {
            assert(s[1] == decimal(k)[0]);
        } else {
            assert(s[3] == decimal(k)[0]);
        }
    }
}

/// Naming a new pair keeps the naming state consistent.
pub proof fn lemma_fresh_name_consistent(
    names: Map<(Seq<char>, Seq<char>), Seq<char>>,
    counters: Map<Seq<char>, usize>,
    q: (Seq<char>, Seq<char>),
    v1: Seq<char>,
)
    requires
        naming_consistent(names, counters),
        can_name(counters, v1),
    ensures
        naming_consistent(
            names.insert(q, fresh_var_name(counters, v1)),
            counters_after(counters, v1),
        ),
{
    let n0 = fresh_var_name(counters, v1);
    let names2 = names.insert(q, n0);
    let counters2 = counters_after(counters, v1);
    let pre0 = var_prefix(v1);
    let c0 = counter_of(counters, pre0);
    if !is_special_var(v1) {
        lemma_generated_name_not_special(pre0, c0);
    }
    assert forall|pre: Seq<char>| counter_of(counters, pre) <= #[trigger] counter_of(
        counters2,
        pre,
    ) by {}
    assert forall|p: (Seq<char>, Seq<char>)|
        #![trigger names2[p]]
        names2.contains_key(p) && !is_special_var(names2[p]) implies exists|pre: Seq<char>, k: nat|
        is_var_prefix(pre) && k < counter_of(counters2, pre) && names2[p] == pre + decimal(k) by {
        if p == q {
            assert(is_var_prefix(pre0) && c0 < counter_of(counters2, pre0) && names2[p] == pre0
                + decimal(c0));
        } else {
            assert(names2[p] == names[p]);
            let (pre, k) = choose|pre: Seq<char>, k: nat|
                is_var_prefix(pre) && k < counter_of(counters, pre) && names[p] == pre + decimal(
                    k,
                );
            assert(is_var_prefix(pre) && k < counter_of(counters2, pre) && names2[p] == pre
                + decimal(k));
        }
    }
    assert forall|p1: (Seq<char>, Seq<char>), p2: (Seq<char>, Seq<char>)|
        #![trigger names2[p1], names2[p2]]
        names2.contains_key(p1) && names2.contains_key(p2) && p1 != p2 && names2[p1]
            == names2[p2] implies is_special_var(names2[p1]) by {
        if p1 != q && p2 != q {
            assert(names[p1] == names2[p1]);
            assert(names[p2] == names2[p2]);
        } else if !is_special_var(n0) {
            let other = if p1 == q {
                p2
            } else {
                p1
            };
            assert(names[other] == names2[other]);
            assert(names2[other] == n0);
            let (pre, k) = choose|pre: Seq<char>, k: nat|
                is_var_prefix(pre) && k < counter_of(counters, pre) && names[other] == pre
                    + decimal(k);
            lemma_generated_name_parts(pre, k, pre0, c0);
        }
    }
}

/// The names after `get_new_var_name(v1, v2)`.
pub open spec fn names_after_get(
    names: Map<(Seq<char>, Seq<char>), Seq<char>>,
    counters: Map<Seq<char>, usize>,
    v1: Seq<char>,
    v2: Seq<char>,
) -> Map<(Seq<char>, Seq<char>), Seq<char>> {
    if names.contains_key(ordered_pair(v1, v2)) {
        names
    } else {
        names.insert(ordered_pair(v1, v2), fresh_var_name(counters, v1))
    }
}

/// Once a pair has been named by `get_new_var_name`, asking again, with the
/// bindings in either order, gives the same name and changes nothing; names
/// given earlier to other pairs stay as they were.
pub proof fn lemma_get_new_var_name_stable(
    names: Map<(Seq<char>, Seq<char>), Seq<char>>,
    counters: Map<Seq<char>, usize>,
    v1: Seq<char>,
    v2: Seq<char>,
)
    ensures
        ({
            let after = names_after_get(names, counters, v1, v2);
            &&& after.contains_key(ordered_pair(v2, v1))
            &&& names_after_get(after, counters, v2, v1) == after
            &&& after[ordered_pair(v2, v1)] == if names.contains_key(ordered_pair(v1, v2)) {
                names[ordered_pair(v1, v2)]
            } else {
                fresh_var_name(counters, v1)
            }
            &&& forall|p: (Seq<char>, Seq<char>)|
                #[trigger] names.contains_key(p) ==> after.contains_key(p) && after[p] == names[p]
        }),
{
    lemma_ordered_pair_symmetric(v1, v2);
}

/// Two different pairs never share a name other than `PE` or `CMD_E`, in
/// every naming state that the operations of `CombinedCstBindingMap` reach.
pub proof fn lemma_distinct_pairs_distinct_names(
    names: Map<(Seq<char>, Seq<char>), Seq<char>>,
    counters: Map<Seq<char>, usize>,
    p1: (Seq<char>, Seq<char>),
    p2: (Seq<char>, Seq<char>),
)
    requires
        naming_consistent(names, counters),
        names.contains_key(p1),
        names.contains_key(p2),
        p1 != p2,
        !is_special_var(names[p1]),
    ensures
        names[p1] != names[p2],
{
}

/// Binding map that maps a pair of bindings (from two composite states) into
/// a single binding.
pub struct CombinedCstBindingMap {
    map: KeyMap<(String, String), String>,
    prefixed_var_counter: StrMap<usize>,
}

impl CombinedCstBindingMap {
    /// The name given to each ordered pair of bindings.
    pub closed spec fn names(&self) -> Map<(Seq<char>, Seq<char>), Seq<char>> {
        self.map@.map_values(|s: String| s@)
    }

    /// How many names have been handed out under each prefix.
    pub closed spec fn counters(&self) -> Map<Seq<char>, usize> {
        self.prefixed_var_counter@
    }

    pub fn new() -> (m: Self)
        ensures
            m.names() == Map::<(Seq<char>, Seq<char>), Seq<char>>::empty(),
            m.counters() == Map::<Seq<char>, usize>::empty(),
            naming_consistent(m.names(), m.counters()),
    {
        let m = Self { map: KeyMap::new(), prefixed_var_counter: StrMap::new() };
        assert(m.names() =~= Map::<(Seq<char>, Seq<char>), Seq<char>>::empty());
        m
    }

    /// Names the pair `(v1, v2)` afresh: `PE` and `CMD_E` keep their name,
    /// any other binding gets its prefix followed by the next number of that
    /// prefix.
    pub fn add_new_var(&mut self, v1: &str, v2: &str) -> (name: String)
        requires
            can_name(old(self).counters(), v1@),
        ensures
            name@ == fresh_var_name(old(self).counters(), v1@),
            final(self).names() == old(self).names().insert(ordered_pair(v1@, v2@), name@),
            final(self).counters() == counters_after(old(self).counters(), v1@),
            naming_consistent(old(self).names(), old(self).counters()) ==> naming_consistent(
                final(self).names(),
                final(self).counters(),
            ),
    {
        proof {
            if naming_consistent(self.names(), self.counters()) {
                lemma_fresh_name_consistent(
                    self.names(),
                    self.counters(),
                    ordered_pair(v1@, v2@),
                    v1@,
                );
            }
            reveal_strlit("PE");
            reveal_strlit("CMD_E");
            assert("PE"@ =~= premise_entity_binding());
            assert("CMD_E"@ =~= command_entity_binding());
        }
        let var_name: String = if str_eq(v1, "PE") || str_eq(v1, "CMD_E") {
            v1.to_owned()
        } else {
            let prefix = get_var_prefix(v1);
            let var_index: usize = match self.prefixed_var_counter.get(&prefix) {
                Some(i) => *i,
                None => 0,
            };
            let mut var_name = prefix.clone();
            push_decimal(&mut var_name, var_index);
            self.prefixed_var_counter.insert(prefix, var_index + 1);
            var_name
        };
        let (mv1, mv2) = order_vars(v1, v2);
        let ghost names = self.names();
        self.map.insert((mv1.to_owned(), mv2.to_owned()), var_name.clone());
        assert(self.names() =~= names.insert(ordered_pair(v1@, v2@), var_name@));
        var_name
    }

    /// The name of the pair `(v1, v2)`, in either order, naming it afresh if
    /// it has none yet.
    pub fn get_new_var_name(&mut self, v1: &str, v2: &str) -> (name: String)
        requires
            old(self).names().contains_key(ordered_pair(v1@, v2@)) || can_name(
                old(self).counters(),
                v1@,
            ),
        ensures
            old(self).names().contains_key(ordered_pair(v1@, v2@)) ==> {
                &&& name@ == old(self).names()[ordered_pair(v1@, v2@)]
                &&& final(self).names() == old(self).names()
                &&& final(self).counters() == old(self).counters()
            },
            !old(self).names().contains_key(ordered_pair(v1@, v2@)) ==> {
                &&& name@ == fresh_var_name(old(self).counters(), v1@)
                &&& final(self).names() == old(self).names().insert(
                    ordered_pair(v1@, v2@),
                    name@,
                )
                &&& final(self).counters() == counters_after(old(self).counters(), v1@)
            },
            naming_consistent(old(self).names(), old(self).counters()) ==> naming_consistent(
                final(self).names(),
                final(self).counters(),
            ),
    {
        let (mv1, mv2) = order_vars(v1, v2);
        if let Some(v) = self.map.get(&(mv1.to_owned(), mv2.to_owned())) {
            return v.clone();
        }
        self.add_new_var(v1, v2)
    }
}

/// `q` is `p` with each binding renamed by `m`; a binding that `m` does not
/// rename becomes a wildcard, and values are cloned.
pub open spec fn item_renamed<V: Clone>(
    p: PatternItem<V>,
    q: PatternItem<V>,
    m: Map<Seq<char>, String>,
) -> bool
    decreases p,
{
    match p {
        PatternItem::Binding(b) => if m.contains_key(b@) {
            q is Binding && q->Binding_0@ == m[b@]@
        } else {
            q is Any
        },
        PatternItem::Vec(v) => {
            &&& q is Vec
            &&& q->Vec_0@.len() == v@.len()
            &&& forall|i: int|
                0 <= i < v@.len() ==> {
                    proof {
                        assert(decreases_to!(v => v@[i]));
                    }
                    item_renamed(#[trigger] v@[i], q->Vec_0@[i], m)
                }
        },
        _ => item_cloned(p, q),
    }
}

/// The item with its bindings renamed by `binding_map`: a binding that the
/// map does not rename becomes a wildcard. Renaming never fails.
pub fn map_pattern_item_bindings<V: Clone>(
    p: &PatternItem<V>,
    binding_map: &StrMap<String>,
) -> (r: Option<PatternItem<V>>)
    ensures
        r is Some,
        item_renamed(*p, r->Some_0, binding_map@),
    decreases p,
{
    match p {
        PatternItem::Any | PatternItem::Value(_) => Some(p.clone()),
        PatternItem::Binding(binding) => match binding_map.get(binding) {
            Some(b) => Some(PatternItem::Binding(b.clone())),
            None => Some(PatternItem::Any),
        },
        PatternItem::Vec(v) => {
            let mut out: Vec<PatternItem<V>> = Vec::new();
            let mut i: usize = 0;
            while i < v.len()
                invariant
                    i <= v.len(),
                    *p == PatternItem::Vec(*v),
                    out@.len() == i,
                    forall|j: int|
                        0 <= j < i ==> item_renamed(#[trigger] v@[j], out@[j], binding_map@),
                decreases v.len() - i,
            {
                proof {
                    assert(decreases_to!(*p => (*p)->Vec_0));
                    assert(decreases_to!(v => v[i as int]));
                }
                match map_pattern_item_bindings(&v[i], binding_map) {
                    Some(q) => out.push(q),
                    None => return None,
                }
                i = i + 1;
            }
            Some(PatternItem::Vec(out))
        },
    }
}

/// The fact with its entity and value bindings renamed by `binding_map`:
/// `None` exactly when the entity is a binding that the map does not rename.
pub fn map_fact_bindings<V: Clone>(f: &Fact<MkVal<V>>, binding_map: &StrMap<String>) -> (r: Option<
    Fact<MkVal<V>>,
>)
    ensures
        r is None <==> (f.pattern.entity_id is Binding && !binding_map@.contains_key(
            f.pattern.entity_id->Binding_0@,
        )),
        r matches Some(g) ==> {
            &&& g.time_range == f.time_range
            &&& g.pattern.var_name == f.pattern.var_name
            &&& g.pattern.assumption == f.pattern.assumption
            &&& match f.pattern.entity_id {
                EntityPatternValue::Binding(b) => g.pattern.entity_id is Binding
                    && g.pattern.entity_id->Binding_0@ == binding_map@[b@]@,
                EntityPatternValue::EntityId(id) => g.pattern.entity_id == f.pattern.entity_id,
            }
            &&& item_renamed(f.pattern.value, g.pattern.value, binding_map@)
        },
{
    let entity_id = match &f.pattern.entity_id {
        EntityPatternValue::Binding(binding) => match binding_map.get(binding) {
            Some(new_binding) => EntityPatternValue::Binding(new_binding.clone()),
            None => {
                return None;
            },
        },
        EntityPatternValue::EntityId(id) => EntityPatternValue::EntityId(id.clone()),
    };
    let value = match map_pattern_item_bindings(&f.pattern.value, binding_map) {
        Some(v) => v,
        None => {
            return None;
        },
    };
    Some(
        f.with_pattern(
            MkVal {
                entity_id,
                var_name: f.pattern.var_name.clone(),
                value,
                assumption: f.pattern.assumption,
            },
        ),
    )
}

/// The names of `v`, as a set.
pub open spec fn name_set(v: Seq<String>) -> Set<Seq<char>> {
    strings_view(v).to_set()
}

/// Adds the bindings of the item, at any depth, to `binding_set`, each name
/// at most once.
pub fn get_pattern_item_binding_set<V>(p: &PatternItem<V>, binding_set: &mut Vec<String>)
    requires
        strings_view(old(binding_set)@).no_duplicates(),
    ensures
        strings_view(final(binding_set)@).no_duplicates(),
        name_set(final(binding_set)@) == name_set(old(binding_set)@) + item_bindings(*p).to_set(),
    decreases p,
{
    match p {
        PatternItem::Binding(b) => {
            insert_name(binding_set, b);
            assert(item_bindings(*p).to_set() =~= set![b@]) by {
                assert(item_bindings(*p)[0] == b@);
            }
        },
        PatternItem::Vec(v) => {
            let ghost start = name_set(binding_set@);
            let mut i: usize = 0;
            proof {
                lemma_pattern_bindings_set_push_empty::<V>();
            }
            while i < v.len()
                invariant
                    i <= v.len(),
                    *p == PatternItem::Vec(*v),
                    strings_view(binding_set@).no_duplicates(),
                    name_set(binding_set@) == start + crate::types::pattern::pattern_bindings(
                        v@.subrange(0, i as int),
                    ).to_set(),
                decreases v.len() - i,
            {
                proof {
                    assert(decreases_to!(*p => (*p)->Vec_0));
                    assert(decreases_to!(v => v[i as int]));
                    lemma_pattern_bindings_set_push(v@, i as int);
                }
                get_pattern_item_binding_set(&v[i], binding_set);
                i = i + 1;
            }
            assert(v@.subrange(0, i as int) =~= v@);
        },
        PatternItem::Value(_) | PatternItem::Any => {
            assert(item_bindings(*p).to_set() =~= Set::<Seq<char>>::empty());
            assert(name_set(binding_set@) =~= name_set(binding_set@) + Set::<Seq<char>>::empty());
        },
    }
}

/// The set of names of a pattern read one item longer.
proof fn lemma_pattern_bindings_set_push<V>(s: Seq<PatternItem<V>>, i: int)
    requires
        0 <= i < s.len(),
    ensures
        crate::types::pattern::pattern_bindings(s.subrange(0, i + 1)).to_set()
            == crate::types::pattern::pattern_bindings(s.subrange(0, i)).to_set() + item_bindings(
            s[i],
        ).to_set(),
{
    assert(s.subrange(0, i + 1).drop_last() =~= s.subrange(0, i));
    let a = crate::types::pattern::pattern_bindings(s.subrange(0, i));
    let b = item_bindings(s[i]);
    vstd::seq_lib::seq_to_set_distributes_over_add(a, b);
}

/// The empty pattern has no names.
proof fn lemma_pattern_bindings_set_push_empty<V>()
    ensures
        forall|s: Seq<PatternItem<V>>|
            #![trigger s.subrange(0, 0)]
            crate::types::pattern::pattern_bindings(s.subrange(0, 0)).to_set() =~= Set::<
                Seq<char>,
            >::empty(),
{
    assert forall|s: Seq<PatternItem<V>>|
        #![trigger s.subrange(0, 0)]
        crate::types::pattern::pattern_bindings(s.subrange(0, 0)).to_set() =~= Set::<
            Seq<char>,
        >::empty() by {
        assert(s.subrange(0, 0).len() == 0);
    }
}

/// Adds `name` to `set` unless it is there already.
fn insert_name(set: &mut Vec<String>, name: &String)
    requires
        strings_view(old(set)@).no_duplicates(),
    ensures
        strings_view(final(set)@).no_duplicates(),
        name_set(final(set)@) == name_set(old(set)@).insert(name@),
{
    let ghost names = strings_view(set@);
    let mut i: usize = 0;
    while i < set.len()
        invariant
            i <= set.len(),
            names == strings_view(set@),
            names.no_duplicates(),
            forall|j: int| 0 <= j < i ==> names[j] != name@,
        decreases set.len() - i,
    {
        if set[i] == *name {
            assert(names[i as int] == name@);
            assert(name_set(set@) =~= name_set(set@).insert(name@));
            return;
        }
        i = i + 1;
    }
    set.push(name.clone());
    assert(strings_view(set@) =~= names.push(name@));
    assert(name_set(set@) =~= names.to_set().insert(name@)) by {
        names.lemma_push_to_set_commute(name@);
    }
}

/// The bindings of a fact, each once: the entity's binding, if the entity
/// is a binding, and those of the value.
pub fn get_fact_binding_set<V: Clone>(fact: &Fact<MkVal<V>>) -> (r: Vec<String>)
    ensures
        strings_view(r@).no_duplicates(),
        name_set(r@) == crate::types::mk_val_bindings(fact.pattern).to_set(),
{
    let mut binding_set: Vec<String> = Vec::new();
    assert(strings_view(binding_set@) =~= Seq::<Seq<char>>::empty());
    if let EntityPatternValue::Binding(b) = &fact.pattern.entity_id {
        insert_name(&mut binding_set, b);
    }
    get_pattern_item_binding_set(&fact.pattern.value, &mut binding_set);
    proof {
        let vb = item_bindings(fact.pattern.value);
        let entity = fact.pattern.entity_id;
        match entity {
            EntityPatternValue::Binding(b) => {
                assert(name_set(Seq::<String>::empty()) =~= Set::<Seq<char>>::empty());
                vstd::seq_lib::seq_to_set_distributes_over_add(seq![b@], vb);
                assert(seq![b@].to_set() =~= set![b@]) by {
                    assert(seq![b@][0] == b@);
                }
            },
            EntityPatternValue::EntityId(_) => {
                assert(name_set(Seq::<String>::empty()) =~= Set::<Seq<char>>::empty());
            },
        }
    }
    binding_set
}

/// The pairs of bindings that stand in the same place in the two items, in
/// order; nested patterns are paired up to the shorter one's length.
pub open spec fn item_pairs<V>(a: PatternItem<V>, b: PatternItem<V>) -> Seq<(Seq<char>, Seq<char>)>
    decreases a, 0int,
{
    match (a, b) {
        (PatternItem::Binding(x), PatternItem::Binding(y)) => seq![(x@, y@)],
        (PatternItem::Vec(v), PatternItem::Vec(w)) => {
            proof {
                assert(decreases_to!(v => v@));
            }
            pairs_upto(v@, w@, min_len(v@.len(), w@.len()))
        },
        _ => seq![],
    }
}

/// The smaller of two lengths.
pub open spec fn min_len(a: nat, b: nat) -> int {
    if a <= b {
        a as int
    } else {
        b as int
    }
}

/// The pairs of bindings of the first `n` items of two patterns.
pub open spec fn pairs_upto<V>(s: Seq<PatternItem<V>>, t: Seq<PatternItem<V>>, n: int) -> Seq<
    (Seq<char>, Seq<char>),
>
    decreases s, n,
{
    if n <= 0 || n > s.len() || n > t.len() {
        seq![]
    } else {
        pairs_upto(s, t, n - 1) + item_pairs(s[n - 1], t[n - 1])
    }
}

/// The two items have the same shape, as far as merging them reads them.
pub open spec fn items_mergeable<V>(a: PatternItem<V>, b: PatternItem<V>) -> bool
    decreases a,
{
    match (a, b) {
        (PatternItem::Any, PatternItem::Any) => true,
        (PatternItem::Binding(_), PatternItem::Binding(_)) => true,
        (PatternItem::Value(_), PatternItem::Value(_)) => true,
        (PatternItem::Vec(v), PatternItem::Vec(w)) => forall|i: int|
            0 <= i < v@.len() && i < w@.len() ==> {
                proof {
                    assert(decreases_to!(v => v@[i]));
                }
                items_mergeable(#[trigger] v@[i], w@[i])
            },
        _ => false,
    }
}

/// `r` merges `a` and `b` under `names`: each pair of bindings becomes the
/// name of the pair, each value is a clone of the first item's value.
pub open spec fn item_merged<V: Clone>(
    a: PatternItem<V>,
    b: PatternItem<V>,
    r: PatternItem<V>,
    names: Map<(Seq<char>, Seq<char>), Seq<char>>,
) -> bool
    decreases a,
{
    match (a, b) {
        (PatternItem::Any, PatternItem::Any) => r is Any,
        (PatternItem::Binding(x), PatternItem::Binding(y)) => {
            &&& names.contains_key(ordered_pair(x@, y@))
            &&& r is Binding
            &&& r->Binding_0@ == names[ordered_pair(x@, y@)]
        },
        (PatternItem::Value(x), PatternItem::Value(_)) => r is Value && cloned(x, r->Value_0),
        (PatternItem::Vec(v), PatternItem::Vec(w)) => {
            &&& r is Vec
            &&& r->Vec_0@.len() == min_len(v@.len(), w@.len())
            &&& forall|i: int|
                0 <= i < r->Vec_0@.len() ==> {
                    proof {
                        assert(decreases_to!(v => v@[i]));
                    }
                    item_merged(#[trigger] v@[i], w@[i], r->Vec_0@[i], names)
                }
        },
        _ => false,
    }
}

/// The naming state after one call of `get_new_var_name` on the pair.
pub open spec fn naming_step(
    state: (Map<(Seq<char>, Seq<char>), Seq<char>>, Map<Seq<char>, usize>),
    pair: (Seq<char>, Seq<char>),
) -> (Map<(Seq<char>, Seq<char>), Seq<char>>, Map<Seq<char>, usize>) {
    if state.0.contains_key(ordered_pair(pair.0, pair.1)) {
        state
    } else {
        (
            state.0.insert(ordered_pair(pair.0, pair.1), fresh_var_name(state.1, pair.0)),
            counters_after(state.1, pair.0),
        )
    }
}

/// The naming state after `get_new_var_name` has been called on each pair
/// in turn.
pub open spec fn naming_after(
    names: Map<(Seq<char>, Seq<char>), Seq<char>>,
    counters: Map<Seq<char>, usize>,
    pairs: Seq<(Seq<char>, Seq<char>)>,
) -> (Map<(Seq<char>, Seq<char>), Seq<char>>, Map<Seq<char>, usize>)
    decreases pairs.len(),
{
    if pairs.len() == 0 {
        (names, counters)
    } else {
        naming_step(naming_after(names, counters, pairs.drop_last()), pairs.last())
    }
}

/// Each pair in turn can be named without a counter overflowing.
pub open spec fn can_name_pairs(
    names: Map<(Seq<char>, Seq<char>), Seq<char>>,
    counters: Map<Seq<char>, usize>,
    pairs: Seq<(Seq<char>, Seq<char>)>,
) -> bool
    decreases pairs.len(),
{
    pairs.len() == 0 || {
        let st = naming_after(names, counters, pairs.drop_last());
        &&& can_name_pairs(names, counters, pairs.drop_last())
        &&& (st.0.contains_key(ordered_pair(pairs.last().0, pairs.last().1)) || can_name(
            st.1,
            pairs.last().0,
        ))
    }
}

/// `n2` keeps every name of `n1`.
pub open spec fn names_extend(
    n1: Map<(Seq<char>, Seq<char>), Seq<char>>,
    n2: Map<(Seq<char>, Seq<char>), Seq<char>>,
) -> bool {
    forall|k: (Seq<char>, Seq<char>)|
        #[trigger] n1.contains_key(k) ==> n2.contains_key(k) && n2[k] == n1[k]
}

/// Naming a sequence of pairs and then another is naming their
/// concatenation.
proof fn lemma_naming_after_concat(
    names: Map<(Seq<char>, Seq<char>), Seq<char>>,
    counters: Map<Seq<char>, usize>,
    p: Seq<(Seq<char>, Seq<char>)>,
    q: Seq<(Seq<char>, Seq<char>)>,
)
    ensures
        naming_after(names, counters, p + q) == naming_after(
            naming_after(names, counters, p).0,
            naming_after(names, counters, p).1,
            q,
        ),
        can_name_pairs(names, counters, p + q) <==> (can_name_pairs(names, counters, p)
            && can_name_pairs(
            naming_after(names, counters, p).0,
            naming_after(names, counters, p).1,
            q,
        )),
    decreases q.len(),
{
    if q.len() == 0 {
        assert(p + q =~= p);
    } else {
        lemma_naming_after_concat(names, counters, p, q.drop_last());
        assert((p + q).drop_last() =~= p + q.drop_last());
        assert((p + q).last() == q.last());
    }
}

/// Naming pairs keeps every name given before and names each pair.
proof fn lemma_naming_after_extends(
    names: Map<(Seq<char>, Seq<char>), Seq<char>>,
    counters: Map<Seq<char>, usize>,
    p: Seq<(Seq<char>, Seq<char>)>,
)
    ensures
        names_extend(names, naming_after(names, counters, p).0),
        forall|i: int|
            0 <= i < p.len() ==> naming_after(names, counters, p).0.contains_key(
                ordered_pair(#[trigger] p[i].0, p[i].1),
            ),
    decreases p.len(),
{
    if p.len() > 0 {
        lemma_naming_after_extends(names, counters, p.drop_last());
        let st = naming_after(names, counters, p.drop_last());
        assert forall|i: int| 0 <= i < p.len() implies naming_after(
            names,
            counters,
            p,
        ).0.contains_key(ordered_pair(#[trigger] p[i].0, p[i].1)) by {
            if i < p.len() - 1 {
                assert(p.drop_last()[i] == p[i]);
            }
        }
    }
}

/// The pairs of a shorter prefix of two patterns come first among those of
/// a longer one.
proof fn lemma_pairs_upto_prefix<V>(s: Seq<PatternItem<V>>, t: Seq<PatternItem<V>>, n: int, m: int)
    requires
        0 <= n <= m <= s.len(),
        m <= t.len(),
    ensures
        pairs_upto(s, t, m) == pairs_upto(s, t, n) + pairs_upto(s, t, m).subrange(
            pairs_upto(s, t, n).len() as int,
            pairs_upto(s, t, m).len() as int,
        ),
    decreases m - n,
{
    if n < m {
        lemma_pairs_upto_prefix(s, t, n, m - 1);
        let a = pairs_upto(s, t, n);
        let b = pairs_upto(s, t, m - 1);
        let c = pairs_upto(s, t, m);
        assert(c == b + item_pairs(s[m - 1], t[m - 1]));
        assert(c =~= a + c.subrange(a.len() as int, c.len() as int));
    } else {
        let a = pairs_upto(s, t, n);
        assert(a =~= a + a.subrange(a.len() as int, a.len() as int));
    }
}

/// A merge stays valid under names that keep every name it used.
proof fn lemma_item_merged_extend<V: Clone>(
    a: PatternItem<V>,
    b: PatternItem<V>,
    r: PatternItem<V>,
    n1: Map<(Seq<char>, Seq<char>), Seq<char>>,
    n2: Map<(Seq<char>, Seq<char>), Seq<char>>,
)
    requires
        item_merged(a, b, r, n1),
        names_extend(n1, n2),
    ensures
        item_merged(a, b, r, n2),
    decreases a,
{
    match (a, b) {
        (PatternItem::Binding(x), PatternItem::Binding(y)) => {
            assert(n1.contains_key(ordered_pair(x@, y@)));
        },
        (PatternItem::Vec(v), PatternItem::Vec(w)) => {
            assert forall|i: int| 0 <= i < r->Vec_0@.len() implies item_merged(
                #[trigger] v@[i],
                w@[i],
                r->Vec_0@[i],
                n2,
            ) by {
                assert(decreases_to!(a => a->Vec_0));
                assert(decreases_to!(v => v@[i]));
                lemma_item_merged_extend(v@[i], w@[i], r->Vec_0@[i], n1, n2);
            }
        },
        _ => {},
    }
}

/// Naming pairs raises each counter by at most the number of pairs.
proof fn lemma_naming_after_counters(
    names: Map<(Seq<char>, Seq<char>), Seq<char>>,
    counters: Map<Seq<char>, usize>,
    p: Seq<(Seq<char>, Seq<char>)>,
    pre: Seq<char>,
)
    requires
        forall|x: Seq<char>| #[trigger] counter_of(counters, x) + p.len() < usize::MAX,
    ensures
        counter_of(naming_after(names, counters, p).1, pre) <= counter_of(counters, pre) + p.len(),
    decreases p.len(),
{
    if p.len() > 0 {
        assert forall|x: Seq<char>| #[trigger] counter_of(counters, x) + p.drop_last().len()
            < usize::MAX by {
            assert(counter_of(counters, x) + p.len() < usize::MAX);
        }
        lemma_naming_after_counters(names, counters, p.drop_last(), pre);
        lemma_naming_after_counters(names, counters, p.drop_last(), var_prefix(p.last().0));
    }
}

/// Every pair can be named when each counter is further from overflowing
/// than there are pairs.
pub proof fn lemma_can_name_pairs(
    names: Map<(Seq<char>, Seq<char>), Seq<char>>,
    counters: Map<Seq<char>, usize>,
    p: Seq<(Seq<char>, Seq<char>)>,
)
    requires
        forall|x: Seq<char>| #[trigger] counter_of(counters, x) + p.len() < usize::MAX,
    ensures
        can_name_pairs(names, counters, p),
    decreases p.len(),
{
    if p.len() > 0 {
        assert forall|x: Seq<char>| #[trigger] counter_of(counters, x) + p.drop_last().len()
            < usize::MAX by {
            assert(counter_of(counters, x) + p.len() < usize::MAX);
        }
        lemma_can_name_pairs(names, counters, p.drop_last());
        lemma_naming_after_counters(names, counters, p.drop_last(), var_prefix(p.last().0));
    }
}

/// Merges two items of the same shape: each pair of bindings gets its name
/// from `combined_cst_binding_map`, each value is taken from the first item,
/// and nested patterns are merged up to the shorter one's length.
pub fn merge_pattern_items_for_csts<V: Clone>(
    v1: &PatternItem<V>,
    v2: &PatternItem<V>,
    combined_cst_binding_map: &mut CombinedCstBindingMap,
) -> (r: PatternItem<V>)
    requires
        items_mergeable(*v1, *v2),
        can_name_pairs(
            old(combined_cst_binding_map).names(),
            old(combined_cst_binding_map).counters(),
            item_pairs(*v1, *v2),
        ),
    ensures
        (final(combined_cst_binding_map).names(), final(combined_cst_binding_map).counters())
            == naming_after(
            old(combined_cst_binding_map).names(),
            old(combined_cst_binding_map).counters(),
            item_pairs(*v1, *v2),
        ),
        item_merged(*v1, *v2, r, final(combined_cst_binding_map).names()),
        naming_consistent(
            old(combined_cst_binding_map).names(),
            old(combined_cst_binding_map).counters(),
        ) ==> naming_consistent(
            final(combined_cst_binding_map).names(),
            final(combined_cst_binding_map).counters(),
        ),
    decreases v1,
{
    let ghost n0 = combined_cst_binding_map.names();
    let ghost c0 = combined_cst_binding_map.counters();
    match (v1, v2) {
        (PatternItem::Any, PatternItem::Any) => PatternItem::Any,
        (PatternItem::Binding(b1), PatternItem::Binding(b2)) => {
            assert(seq![(b1@, b2@)].drop_last() =~= Seq::<(Seq<char>, Seq<char>)>::empty());
            let new_binding = combined_cst_binding_map.get_new_var_name(b1, b2);
            PatternItem::Binding(new_binding)
        },
        (PatternItem::Value(x), PatternItem::Value(_)) => PatternItem::Value(x.clone()),
        (PatternItem::Vec(a), PatternItem::Vec(b)) => {
            let n: usize = if a.len() <= b.len() {
                a.len()
            } else {
                b.len()
            };
            let mut out: Vec<PatternItem<V>> = Vec::new();
            let mut i: usize = 0;
            assert(pairs_upto(a@, b@, 0) =~= Seq::<(Seq<char>, Seq<char>)>::empty());
            while i < n
                invariant
                    i <= n,
                    n == min_len(a@.len(), b@.len()),
                    *v1 == PatternItem::Vec(*a),
                    *v2 == PatternItem::Vec(*b),
                    items_mergeable(*v1, *v2),
                    can_name_pairs(n0, c0, pairs_upto(a@, b@, n as int)),
                    (combined_cst_binding_map.names(), combined_cst_binding_map.counters())
                        == naming_after(n0, c0, pairs_upto(a@, b@, i as int)),
                    naming_consistent(n0, c0) ==> naming_consistent(
                        combined_cst_binding_map.names(),
                        combined_cst_binding_map.counters(),
                    ),
                    out@.len() == i,
                    forall|j: int|
                        0 <= j < i ==> item_merged(
                            #[trigger] a@[j],
                            b@[j],
                            out@[j],
                            combined_cst_binding_map.names(),
                        ),
                decreases n - i,
            {
                let ghost mid = (combined_cst_binding_map.names(), combined_cst_binding_map.counters());
                let ghost q = item_pairs(a@[i as int], b@[i as int]);
                proof {
                    assert(decreases_to!(*v1 => (*v1)->Vec_0));
                    assert(decreases_to!(a => a[i as int]));
                    let upto_i = pairs_upto(a@, b@, i as int);
                    let upto_next = pairs_upto(a@, b@, i + 1);
                    assert(upto_next == upto_i + q);
                    lemma_pairs_upto_prefix(a@, b@, i + 1, n as int);
                    let rest = pairs_upto(a@, b@, n as int).subrange(
                        upto_next.len() as int,
                        pairs_upto(a@, b@, n as int).len() as int,
                    );
                    lemma_naming_after_concat(n0, c0, upto_next, rest);
                    lemma_naming_after_concat(n0, c0, upto_i, q);
                    assert(items_mergeable(a@[i as int], b@[i as int]));
                }
                let merged = merge_pattern_items_for_csts(&a[i], &b[i], combined_cst_binding_map);
                proof {
                    lemma_naming_after_concat(n0, c0, pairs_upto(a@, b@, i as int), q);
                    lemma_naming_after_extends(mid.0, mid.1, q);
                    assert forall|j: int| 0 <= j < i implies item_merged(
                        #[trigger] a@[j],
                        b@[j],
                        out@[j],
                        combined_cst_binding_map.names(),
                    ) by {
                        lemma_item_merged_extend(
                            a@[j],
                            b@[j],
                            out@[j],
                            mid.0,
                            combined_cst_binding_map.names(),
                        );
                    }
                }
                out.push(merged);
                i = i + 1;
            }
            PatternItem::Vec(out)
        },
        _ => vstd::pervasive::unreached(),
    }
}

/// The pair of entity bindings, if both entities are bindings.
pub open spec fn entity_pairs(e1: EntityPatternValue, e2: EntityPatternValue) -> Seq<
    (Seq<char>, Seq<char>),
> {
    match (e1, e2) {
        (EntityPatternValue::Binding(b1), EntityPatternValue::Binding(b2)) => seq![(b1@, b2@)],
        _ => seq![],
    }
}

/// The pairs of bindings that merging two variable patterns names, in order:
/// the entities' first, then those of the values.
pub open spec fn fact_pairs<V>(m1: MkVal<V>, m2: MkVal<V>) -> Seq<(Seq<char>, Seq<char>)> {
    entity_pairs(m1.entity_id, m2.entity_id) + item_pairs(m1.value, m2.value)
}

/// Both entities are bindings or both are entity ids.
pub open spec fn entities_mergeable(e1: EntityPatternValue, e2: EntityPatternValue) -> bool {
    (e1 is Binding && e2 is Binding) || (e1 is EntityId && e2 is EntityId)
}

/// Merges two facts of the same shape into one with the first one's time
/// range, variable and assumption flag: two entity bindings get the name
/// of their pair, two entity ids are taken to be the same, and the values
/// are merged item by item.
pub fn merge_facts<V: Clone>(
    f1: &Fact<MkVal<V>>,
    f2: &Fact<MkVal<V>>,
    combined_cst_binding_map: &mut CombinedCstBindingMap,
) -> (r: Fact<MkVal<V>>)
    requires
        entities_mergeable(f1.pattern.entity_id, f2.pattern.entity_id),
        items_mergeable(f1.pattern.value, f2.pattern.value),
        can_name_pairs(
            old(combined_cst_binding_map).names(),
            old(combined_cst_binding_map).counters(),
            fact_pairs(f1.pattern, f2.pattern),
        ),
    ensures
        (final(combined_cst_binding_map).names(), final(combined_cst_binding_map).counters())
            == naming_after(
            old(combined_cst_binding_map).names(),
            old(combined_cst_binding_map).counters(),
            fact_pairs(f1.pattern, f2.pattern),
        ),
        r.time_range == f1.time_range,
        r.pattern.var_name == f1.pattern.var_name,
        r.pattern.assumption == f1.pattern.assumption,
        match (f1.pattern.entity_id, f2.pattern.entity_id) {
            (EntityPatternValue::Binding(b1), EntityPatternValue::Binding(b2)) => {
                &&& r.pattern.entity_id is Binding
                &&& final(combined_cst_binding_map).names().contains_key(ordered_pair(b1@, b2@))
                &&& r.pattern.entity_id->Binding_0@ == final(combined_cst_binding_map).names()[ordered_pair(b1@, b2@)]
            },
            _ => r.pattern.entity_id == f1.pattern.entity_id,
        },
        item_merged(
            f1.pattern.value,
            f2.pattern.value,
            r.pattern.value,
            final(combined_cst_binding_map).names(),
        ),
        naming_consistent(
            old(combined_cst_binding_map).names(),
            old(combined_cst_binding_map).counters(),
        ) ==> naming_consistent(
            final(combined_cst_binding_map).names(),
            final(combined_cst_binding_map).counters(),
        ),
{
    let ghost n0 = combined_cst_binding_map.names();
    let ghost c0 = combined_cst_binding_map.counters();
    let ghost ep = entity_pairs(f1.pattern.entity_id, f2.pattern.entity_id);
    proof {
        lemma_naming_after_concat(n0, c0, ep, item_pairs(f1.pattern.value, f2.pattern.value));
        assert(ep.len() == 1 ==> ep.drop_last() =~= Seq::<(Seq<char>, Seq<char>)>::empty());
    }
    let merged_entity_ids = match (&f1.pattern.entity_id, &f2.pattern.entity_id) {
        (EntityPatternValue::Binding(b1), EntityPatternValue::Binding(b2)) => EntityPatternValue::Binding(
            combined_cst_binding_map.get_new_var_name(b1, b2),
        ),
        (EntityPatternValue::EntityId(e1), EntityPatternValue::EntityId(_)) => EntityPatternValue::EntityId(e1.clone()),
        _ => vstd::pervasive::unreached(),
    };
    let ghost mid = combined_cst_binding_map.names();
    let merged_value = merge_pattern_items_for_csts(
        &f1.pattern.value,
        &f2.pattern.value,
        combined_cst_binding_map,
    );
    proof {
        lemma_naming_after_extends(
            mid,
            naming_after(n0, c0, ep).1,
            item_pairs(f1.pattern.value, f2.pattern.value),
        );
        let e1 = f1.pattern.entity_id;
        let e2 = f2.pattern.entity_id;
        match (e1, e2) {
            (EntityPatternValue::Binding(b1), EntityPatternValue::Binding(b2)) => {
                assert(mid.contains_key(ordered_pair(b1@, b2@)));
                assert(merged_entity_ids->Binding_0@ == mid[ordered_pair(b1@, b2@)]);
            },
            _ => {},
        }
    }
    f1.with_pattern(
        MkVal {
            entity_id: merged_entity_ids,
            var_name: f1.pattern.var_name.clone(),
            value: merged_value,
            assumption: f1.pattern.assumption,
        },
    )
}

/// `r` is an answer that comparing two fact value patterns of composite
/// states may give: a wildcard on the left matches anything; a binding on
/// the left matches the same binding, or anything but a binding; a binding
/// on the right matches only a binding; values compare as `eq` answers,
/// nested patterns item by item, and a value against a nested pattern as
/// matching the value's elements against it answers.
pub open spec fn cst_items_answer<V, E: Fn(&V, &V) -> bool, A: Fn(&V) -> Option<Vec<V>>>(
    p1: PatternItem<V>,
    p2: PatternItem<V>,
    eq: E,
    as_vec: A,
    r: bool,
) -> bool
    decreases p1, 1int,
{
    match p1 {
        PatternItem::Any => r,
        PatternItem::Binding(b1) => match p2 {
            PatternItem::Binding(b2) => r == (b1@ == b2@),
            _ => r,
        },
        PatternItem::Value(v1) => match p2 {
            PatternItem::Any => r,
            PatternItem::Binding(_) => !r,
            PatternItem::Value(v2) => eq.ensures((&v1, &v2), r),
            PatternItem::Vec(_) => value_match_answer(v1, p2, eq, as_vec, r),
        },
        PatternItem::Vec(v1) => match p2 {
            PatternItem::Any => r,
            PatternItem::Binding(_) => !r,
            PatternItem::Vec(v2) => {
                proof {
                    assert(decreases_to!(v1 => v1@));
                }
                cst_patterns_answer(v1@, v2@, eq, as_vec, r)
            },
            PatternItem::Value(w) => value_match_answer(w, p1, eq, as_vec, r),
        },
    }
}

/// `r` is an answer that comparing two fact patterns of composite states
/// may give: a match needs the same length and items that match.
pub open spec fn cst_patterns_answer<V, E: Fn(&V, &V) -> bool, A: Fn(&V) -> Option<Vec<V>>>(
    s1: Seq<PatternItem<V>>,
    s2: Seq<PatternItem<V>>,
    eq: E,
    as_vec: A,
    r: bool,
) -> bool
    decreases s1, 0int,
{
    if s1.len() != s2.len() {
        !r
    } else if r {
        forall|i: int| 0 <= i < s1.len() ==> cst_items_answer(#[trigger] s1[i], s2[i], eq, as_vec, true)
    } else {
        exists|i: int|
            0 <= i < s1.len() && cst_items_answer(#[trigger] s1[i], s2[i], eq, as_vec, false)
    }
}

/// When `eq` and `as_vec` behave as functions, comparing two fact value
/// patterns never answers both ways.
pub proof fn lemma_cst_items_exclusive<V, E: Fn(&V, &V) -> bool, A: Fn(&V) -> Option<Vec<V>>>(
    p1: PatternItem<V>,
    p2: PatternItem<V>,
    eq: E,
    as_vec: A,
)
    requires
        eq_answers(eq),
        as_vec_reads(as_vec),
    ensures
        !(cst_items_answer(p1, p2, eq, as_vec, true) && cst_items_answer(p1, p2, eq, as_vec, false)),
    decreases p1, 1int,
{
    match (p1, p2) {
        (PatternItem::Value(v1), PatternItem::Value(v2)) => {
            assert(eq.requires((&v1, &v2)));
        },
        (PatternItem::Value(v1), PatternItem::Vec(_)) => {
            lemma_value_match_exclusive(v1, p2, eq, as_vec);
        },
        (PatternItem::Vec(v1), PatternItem::Vec(v2)) => {
            assert(decreases_to!(p1 => v1));
            assert(decreases_to!(v1 => v1@));
            lemma_cst_patterns_exclusive(v1@, v2@, eq, as_vec);
        },
        (PatternItem::Vec(_), PatternItem::Value(w)) => {
            lemma_value_match_exclusive(w, p1, eq, as_vec);
        },
        _ => {},
    }
}

/// When `eq` and `as_vec` behave as functions, comparing two fact patterns
/// never answers both ways.
pub proof fn lemma_cst_patterns_exclusive<V, E: Fn(&V, &V) -> bool, A: Fn(&V) -> Option<Vec<V>>>(
    s1: Seq<PatternItem<V>>,
    s2: Seq<PatternItem<V>>,
    eq: E,
    as_vec: A,
)
    requires
        eq_answers(eq),
        as_vec_reads(as_vec),
    ensures
        !(cst_patterns_answer(s1, s2, eq, as_vec, true) && cst_patterns_answer(
            s1,
            s2,
            eq,
            as_vec,
            false,
        )),
    decreases s1, 0int,
{
    if s1.len() == s2.len() && cst_patterns_answer(s1, s2, eq, as_vec, true) && cst_patterns_answer(
        s1,
        s2,
        eq,
        as_vec,
        false,
    ) {
        let i = choose|i: int|
            0 <= i < s1.len() && cst_items_answer(#[trigger] s1[i], s2[i], eq, as_vec, false);
        assert(cst_items_answer(s1[i], s2[i], eq, as_vec, true));
        lemma_cst_items_exclusive(s1[i], s2[i], eq, as_vec);
    }
}

/// Two renamed copies of an item match a value alike.
proof fn lemma_renamed_value_match<V: Clone, E: Fn(&V, &V) -> bool, A: Fn(&V) -> Option<Vec<V>>>(
    p: PatternItem<V>,
    q1: PatternItem<V>,
    q2: PatternItem<V>,
    m: Map<Seq<char>, String>,
    w: V,
    eq: E,
    as_vec: A,
    r: bool,
)
    requires
        clones_equal::<V>(),
        item_renamed(p, q1, m),
        item_renamed(p, q2, m),
    ensures
        value_match_answer(w, q1, eq, as_vec, r) == value_match_answer(w, q2, eq, as_vec, r),
    decreases p, 1int,
{
    match p {
        PatternItem::Value(v) => {
            assert(cloned(v, q1->Value_0));
            assert(cloned(v, q2->Value_0));
        },
        PatternItem::Vec(items) => {
            let a = q1->Vec_0;
            let b = q2->Vec_0;
            assert(decreases_to!(p => items));
            assert(decreases_to!(items => items@));
            assert forall|vs: Seq<V>|
                #![trigger values_match_answer(vs, a@, eq, as_vec, r)]
                values_match_answer(vs, a@, eq, as_vec, r) == values_match_answer(
                    vs,
                    b@,
                    eq,
                    as_vec,
                    r,
                ) by {
                lemma_renamed_values_match(items@, a@, b@, m, vs, eq, as_vec, r);
            }
            if value_match_answer(w, q1, eq, as_vec, r) {
                let o = choose|o: Option<Vec<V>>|
                    #![trigger as_vec.ensures((&w,), o)]
                    as_vec.ensures((&w,), o) && match o {
                        Some(vs) => values_match_answer(vs@, a@, eq, as_vec, r),
                        None => !r,
                    };
                if o is Some {
                    assert(values_match_answer(o->Some_0@, a@, eq, as_vec, r));
                }
                assert(as_vec.ensures((&w,), o) && match o {
                    Some(vs) => values_match_answer(vs@, b@, eq, as_vec, r),
                    None => !r,
                });
            }
            if value_match_answer(w, q2, eq, as_vec, r) {
                let o = choose|o: Option<Vec<V>>|
                    #![trigger as_vec.ensures((&w,), o)]
                    as_vec.ensures((&w,), o) && match o {
                        Some(vs) => values_match_answer(vs@, b@, eq, as_vec, r),
                        None => !r,
                    };
                if o is Some {
                    assert(values_match_answer(o->Some_0@, a@, eq, as_vec, r));
                }
                assert(as_vec.ensures((&w,), o) && match o {
                    Some(vs) => values_match_answer(vs@, a@, eq, as_vec, r),
                    None => !r,
                });
            }
        },
        _ => {},
    }
}

/// Two renamed copies of a pattern match values alike.
proof fn lemma_renamed_values_match<V: Clone, E: Fn(&V, &V) -> bool, A: Fn(&V) -> Option<Vec<V>>>(
    s: Seq<PatternItem<V>>,
    t1: Seq<PatternItem<V>>,
    t2: Seq<PatternItem<V>>,
    m: Map<Seq<char>, String>,
    vs: Seq<V>,
    eq: E,
    as_vec: A,
    r: bool,
)
    requires
        clones_equal::<V>(),
        t1.len() == s.len(),
        t2.len() == s.len(),
        forall|i: int|
            0 <= i < s.len() ==> item_renamed(#[trigger] s[i], t1[i], m) && item_renamed(
                s[i],
                t2[i],
                m,
            ),
    ensures
        values_match_answer(vs, t1, eq, as_vec, r) == values_match_answer(vs, t2, eq, as_vec, r),
    decreases s, 0int,
{
    assert forall|i: int, r2: bool|
        #![trigger value_match_answer(vs[i], t1[i], eq, as_vec, r2)]
        #![trigger value_match_answer(vs[i], t2[i], eq, as_vec, r2)]
        0 <= i < s.len() && i < vs.len() implies value_match_answer(
            vs[i],
            t1[i],
            eq,
            as_vec,
            r2,
        ) == value_match_answer(vs[i], t2[i], eq, as_vec, r2) by {
        assert(item_renamed(s[i], t1[i], m));
        lemma_renamed_value_match(s[i], t1[i], t2[i], m, vs[i], eq, as_vec, r2);
    }
    if vs.len() == t1.len() {
        if r {
            if values_match_answer(vs, t1, eq, as_vec, r) {
                assert forall|i: int| 0 <= i < t2.len() implies value_match_answer(
                    vs[i],
                    #[trigger] t2[i],
                    eq,
                    as_vec,
                    true,
                ) by {
                    assert(value_match_answer(vs[i], t1[i], eq, as_vec, true));
                }
            }
            if values_match_answer(vs, t2, eq, as_vec, r) {
                assert forall|i: int| 0 <= i < t1.len() implies value_match_answer(
                    vs[i],
                    #[trigger] t1[i],
                    eq,
                    as_vec,
                    true,
                ) by {
                    assert(value_match_answer(vs[i], t2[i], eq, as_vec, true));
                }
            }
        } else {
            if values_match_answer(vs, t1, eq, as_vec, r) {
                let i = choose|i: int|
                    0 <= i < t1.len() && value_match_answer(vs[i], #[trigger] t1[i], eq, as_vec, false);
                assert(value_match_answer(vs[i], t2[i], eq, as_vec, false));
            }
            if values_match_answer(vs, t2, eq, as_vec, r) {
                let i = choose|i: int|
                    0 <= i < t2.len() && value_match_answer(vs[i], #[trigger] t2[i], eq, as_vec, false);
                assert(value_match_answer(vs[i], t1[i], eq, as_vec, false));
            }
        }
    }
}

/// Two renamed copies of an item compare alike with any fact value pattern.
proof fn lemma_renamed_cst_answer<V: Clone, E: Fn(&V, &V) -> bool, A: Fn(&V) -> Option<Vec<V>>>(
    p: PatternItem<V>,
    q1: PatternItem<V>,
    q2: PatternItem<V>,
    m: Map<Seq<char>, String>,
    x: PatternItem<V>,
    eq: E,
    as_vec: A,
    r: bool,
)
    requires
        clones_equal::<V>(),
        item_renamed(p, q1, m),
        item_renamed(p, q2, m),
    ensures
        cst_items_answer(q1, x, eq, as_vec, r) == cst_items_answer(q2, x, eq, as_vec, r),
    decreases p, 1int,
{
    match p {
        PatternItem::Value(v) => {
            assert(cloned(v, q1->Value_0));
            assert(cloned(v, q2->Value_0));
        },
        PatternItem::Vec(items) => {
            let a = q1->Vec_0;
            let b = q2->Vec_0;
            assert(decreases_to!(p => items));
            assert(decreases_to!(items => items@));
            match x {
                PatternItem::Vec(v2) => {
                    lemma_renamed_cst_patterns(items@, a@, b@, m, v2@, eq, as_vec, r);
                },
                PatternItem::Value(w) => {
                    lemma_renamed_value_match(p, q1, q2, m, w, eq, as_vec, r);
                },
                _ => {},
            }
        },
        _ => {},
    }
}

/// Two renamed copies of a pattern compare alike with any fact pattern.
proof fn lemma_renamed_cst_patterns<V: Clone, E: Fn(&V, &V) -> bool, A: Fn(&V) -> Option<Vec<V>>>(
    s: Seq<PatternItem<V>>,
    t1: Seq<PatternItem<V>>,
    t2: Seq<PatternItem<V>>,
    m: Map<Seq<char>, String>,
    u: Seq<PatternItem<V>>,
    eq: E,
    as_vec: A,
    r: bool,
)
    requires
        clones_equal::<V>(),
        t1.len() == s.len(),
        t2.len() == s.len(),
        forall|i: int|
            0 <= i < s.len() ==> item_renamed(#[trigger] s[i], t1[i], m) && item_renamed(
                s[i],
                t2[i],
                m,
            ),
    ensures
        cst_patterns_answer(t1, u, eq, as_vec, r) == cst_patterns_answer(t2, u, eq, as_vec, r),
    decreases s, 0int,
{
    assert forall|i: int, r2: bool|
        #![trigger cst_items_answer(t1[i], u[i], eq, as_vec, r2)]
        #![trigger cst_items_answer(t2[i], u[i], eq, as_vec, r2)]
        0 <= i < s.len() && i < u.len() implies cst_items_answer(
            t1[i],
            u[i],
            eq,
            as_vec,
            r2,
        ) == cst_items_answer(t2[i], u[i], eq, as_vec, r2) by {
        assert(item_renamed(s[i], t1[i], m));
        lemma_renamed_cst_answer(s[i], t1[i], t2[i], m, u[i], eq, as_vec, r2);
    }
    if t1.len() == u.len() {
        if r {
            if cst_patterns_answer(t1, u, eq, as_vec, r) {
                assert forall|i: int| 0 <= i < t2.len() implies cst_items_answer(
                    #[trigger] t2[i],
                    u[i],
                    eq,
                    as_vec,
                    true,
                ) by {
                    assert(cst_items_answer(t1[i], u[i], eq, as_vec, true));
                }
            }
            if cst_patterns_answer(t2, u, eq, as_vec, r) {
                assert forall|i: int| 0 <= i < t1.len() implies cst_items_answer(
                    #[trigger] t1[i],
                    u[i],
                    eq,
                    as_vec,
                    true,
                ) by {
                    assert(cst_items_answer(t2[i], u[i], eq, as_vec, true));
                }
            }
        } else {
            if cst_patterns_answer(t1, u, eq, as_vec, r) {
                let i = choose|i: int|
                    0 <= i < t1.len() && cst_items_answer(#[trigger] t1[i], u[i], eq, as_vec, false);
                assert(cst_items_answer(t2[i], u[i], eq, as_vec, false));
            }
            if cst_patterns_answer(t2, u, eq, as_vec, r) {
                let i = choose|i: int|
                    0 <= i < t2.len() && cst_items_answer(#[trigger] t2[i], u[i], eq, as_vec, false);
                assert(cst_items_answer(t1[i], u[i], eq, as_vec, false));
            }
        }
    }
}

/// `x` is the name that `m` renames one of the bindings `bs` to.
pub open spec fn renamed_to(bs: Seq<Seq<char>>, m: Map<Seq<char>, String>, x: Seq<char>) -> bool {
    exists|b: Seq<char>| #[trigger] bs.contains(b) && m.contains_key(b) && m[b]@ == x
}

/// The names that `m` renames the bindings `bs` to.
pub open spec fn renamed_names(bs: Seq<Seq<char>>, m: Map<Seq<char>, String>) -> Set<Seq<char>> {
    Set::new(|x: Seq<char>| renamed_to(bs, m, x))
}

/// The bindings of a renamed item are the names its bindings are renamed
/// to; bindings that are not renamed are gone.
pub proof fn lemma_renamed_bindings<V: Clone>(
    p: PatternItem<V>,
    q: PatternItem<V>,
    m: Map<Seq<char>, String>,
)
    requires
        item_renamed(p, q, m),
    ensures
        forall|x: Seq<char>|
            #[trigger] item_bindings(q).contains(x) == renamed_to(item_bindings(p), m, x),
    decreases p,
{
    match p {
        PatternItem::Binding(b) => {
            assert forall|x: Seq<char>|
                #[trigger] item_bindings(q).contains(x) == renamed_to(item_bindings(p), m, x) by {
                if renamed_to(item_bindings(p), m, x) {
                    let c = choose|c: Seq<char>|
                        #[trigger] item_bindings(p).contains(c) && m.contains_key(c) && m[c]@ == x;
                    assert(item_bindings(p)[0] == b@);
                    assert(item_bindings(q)[0] == x);
                }
                if item_bindings(q).contains(x) {
                    assert(item_bindings(q)[0] == x);
                    assert(item_bindings(p)[0] == b@);
                    assert(item_bindings(p).contains(b@));
                }
            }
        },
        PatternItem::Vec(items) => {
            let w = q->Vec_0;
            assert(decreases_to!(p => items));
            assert(decreases_to!(items => items@));
            assert forall|i: int, x: Seq<char>| 0 <= i < items@.len() implies #[trigger] item_bindings(
                w@[i],
            ).contains(x) == renamed_to(item_bindings(items@[i]), m, x) by {
                assert(item_renamed(items@[i], w@[i], m));
                lemma_renamed_bindings(items@[i], w@[i], m);
            }
            assert forall|x: Seq<char>|
                #[trigger] item_bindings(q).contains(x) == renamed_to(item_bindings(p), m, x) by {
                crate::types::pattern::lemma_pattern_bindings_contains(w@, x);
                if item_bindings(q).contains(x) {
                    let i = choose|i: int|
                        0 <= i < w@.len() && #[trigger] item_bindings(w@[i]).contains(x);
                    assert(renamed_to(item_bindings(items@[i]), m, x));
                    let c = choose|c: Seq<char>|
                        #[trigger] item_bindings(items@[i]).contains(c) && m.contains_key(c) && m[c]@
                            == x;
                    crate::types::pattern::lemma_pattern_bindings_contains(items@, c);
                    assert(item_bindings(p).contains(c));
                }
                if renamed_to(item_bindings(p), m, x) {
                    let c = choose|c: Seq<char>|
                        #[trigger] item_bindings(p).contains(c) && m.contains_key(c) && m[c]@ == x;
                    crate::types::pattern::lemma_pattern_bindings_contains(items@, c);
                    let i = choose|i: int|
                        0 <= i < items@.len() && #[trigger] item_bindings(items@[i]).contains(c);
                    assert(renamed_to(item_bindings(items@[i]), m, x));
                    assert(item_bindings(w@[i]).contains(x));
                }
            }
        },
        PatternItem::Any => {
            assert(q is Any);
        },
        PatternItem::Value(_) => {
            assert(q is Value);
        },
    }
}

/// Whether two fact patterns of composite states match, item by item.
pub fn compare_cst_fact_patterns<V, E: Fn(&V, &V) -> bool, A: Fn(&V) -> Option<Vec<V>>>(
    pattern1: &Vec<PatternItem<V>>,
    pattern2: &Vec<PatternItem<V>>,
    eq: &E,
    as_vec: &A,
) -> (r: bool)
    requires
        value_ops_callable(*eq, *as_vec),
    ensures
        cst_patterns_answer(pattern1@, pattern2@, *eq, *as_vec, r),
    decreases pattern1,
{
    if pattern1.len() != pattern2.len() {
        return false;
    }
    let mut i: usize = 0;
    while i < pattern1.len()
        invariant
            i <= pattern1.len(),
            pattern1@.len() == pattern2@.len(),
            value_ops_callable(*eq, *as_vec),
            forall|j: int|
                0 <= j < i ==> cst_items_answer(#[trigger] pattern1@[j], pattern2@[j], *eq, *as_vec, true),
        decreases pattern1.len() - i,
    {
        proof {
            assert(decreases_to!(pattern1 => pattern1[i as int]));
        }
        if !compare_cst_fact_pattern_items(&pattern1[i], &pattern2[i], eq, as_vec) {
            assert(cst_items_answer(pattern1@[i as int], pattern2@[i as int], *eq, *as_vec, false));
            return false;
        }
        i = i + 1;
    }
    true
}

/// Whether two fact value patterns of composite states match.
pub fn compare_cst_fact_pattern_items<V, E: Fn(&V, &V) -> bool, A: Fn(&V) -> Option<Vec<V>>>(
    pattern_item1: &PatternItem<V>,
    pattern_item2: &PatternItem<V>,
    eq: &E,
    as_vec: &A,
) -> (r: bool)
    requires
        value_ops_callable(*eq, *as_vec),
    ensures
        cst_items_answer(*pattern_item1, *pattern_item2, *eq, *as_vec, r),
    decreases pattern_item1,
{
    match pattern_item1 {
        PatternItem::Any => true,
        PatternItem::Binding(b1) => match pattern_item2 {
            PatternItem::Binding(b2) => *b1 == *b2,
            _ => true,
        },
        PatternItem::Value(v1) => match pattern_item2 {
            PatternItem::Any => true,
            PatternItem::Binding(_) => false,
            PatternItem::Value(v2) => {
                assert(eq.requires((v1, v2)));
                eq(v1, v2)
            },
            PatternItem::Vec(_) => value_matches_pub(v1, pattern_item2, eq, as_vec),
        },
        PatternItem::Vec(v1) => match pattern_item2 {
            PatternItem::Any => true,
            PatternItem::Binding(_) => false,
            PatternItem::Vec(v2) => {
                proof {
                    assert(decreases_to!(*pattern_item1 => (*pattern_item1)->Vec_0));
                }
                compare_cst_fact_patterns(v1, v2, eq, as_vec)
            },
            PatternItem::Value(w) => value_matches_pub(w, pattern_item1, eq, as_vec),
        },
    }
}

/// `r` is an answer that comparing two functions may give: the same
/// operation on operands that match, patterns that compare with unbound
/// items allowed, lists of the same length with items that match.
pub open spec fn functions_answer<V, E: Fn(&V, &V) -> bool, A: Fn(&V) -> Option<Vec<V>>>(
    f1: Function<V>,
    f2: Function<V>,
    eq: E,
    as_vec: A,
    r: bool,
) -> bool
    decreases f1,
{
    match (f1, f2) {
        (Function::Value(p1), Function::Value(p2)) => items_compare_answer(p1, p2, true, eq, as_vec, r),
        (Function::Add(a1, b1), Function::Add(a2, b2)) => if r {
            functions_answer(*a1, *a2, eq, as_vec, true) && functions_answer(*b1, *b2, eq, as_vec, true)
        } else {
            functions_answer(*a1, *a2, eq, as_vec, false) || (functions_answer(
                *a1,
                *a2,
                eq,
                as_vec,
                true,
            ) && functions_answer(*b1, *b2, eq, as_vec, false))
        },
        (Function::Sub(a1, b1), Function::Sub(a2, b2)) => if r {
            functions_answer(*a1, *a2, eq, as_vec, true) && functions_answer(*b1, *b2, eq, as_vec, true)
        } else {
            functions_answer(*a1, *a2, eq, as_vec, false) || (functions_answer(
                *a1,
                *a2,
                eq,
                as_vec,
                true,
            ) && functions_answer(*b1, *b2, eq, as_vec, false))
        },
        (Function::Mul(a1, b1), Function::Mul(a2, b2)) => if r {
            functions_answer(*a1, *a2, eq, as_vec, true) && functions_answer(*b1, *b2, eq, as_vec, true)
        } else {
            functions_answer(*a1, *a2, eq, as_vec, false) || (functions_answer(
                *a1,
                *a2,
                eq,
                as_vec,
                true,
            ) && functions_answer(*b1, *b2, eq, as_vec, false))
        },
        (Function::Div(a1, b1), Function::Div(a2, b2)) => if r {
            functions_answer(*a1, *a2, eq, as_vec, true) && functions_answer(*b1, *b2, eq, as_vec, true)
        } else {
            functions_answer(*a1, *a2, eq, as_vec, false) || (functions_answer(
                *a1,
                *a2,
                eq,
                as_vec,
                true,
            ) && functions_answer(*b1, *b2, eq, as_vec, false))
        },
        (Function::List(l1), Function::List(l2)) => {
            if l1@.len() != l2@.len() {
                !r
            } else if r {
                forall|i: int|
                    0 <= i < l1@.len() ==> {
                        proof {
                            assert(decreases_to!(l1 => l1@[i]));
                        }
                        functions_answer(#[trigger] l1@[i], l2@[i], eq, as_vec, true)
                    }
            } else {
                exists|i: int|
                    #![trigger l1@[i]]
                    0 <= i < l1@.len() && {
                        proof {
                            assert(decreases_to!(l1 => l1@[i]));
                        }
                        functions_answer(l1@[i], l2@[i], eq, as_vec, false)
                    }
            }
        },
        (Function::ConvertToEntityId(g1), Function::ConvertToEntityId(g2)) => functions_answer(
            *g1,
            *g2,
            eq,
            as_vec,
            r,
        ),
        (Function::ConvertToNumber(g1), Function::ConvertToNumber(g2)) => functions_answer(
            *g1,
            *g2,
            eq,
            as_vec,
            r,
        ),
        _ => !r,
    }
}


/// Two list functions compare equal only when they have the same length
/// and their items compare equal position by position; lists of different
/// lengths compare unequal, and so do lists with one pair of items at the
/// same position that compare unequal.
pub proof fn lemma_list_functions_compare_by_position<
    V,
    E: Fn(&V, &V) -> bool,
    A: Fn(&V) -> Option<Vec<V>>,
>(l1: Vec<Function<V>>, l2: Vec<Function<V>>, eq: E, as_vec: A)
    ensures
        functions_answer(Function::List(l1), Function::List(l2), eq, as_vec, true) ==> l1@.len() == l2@.len()
            && forall|i: int| 0 <= i < l1@.len() ==> #[trigger] functions_answer(l1@[i], l2@[i], eq, as_vec, true),
        l1@.len() != l2@.len() ==> functions_answer(Function::List(l1), Function::List(l2), eq, as_vec, false),
        forall|i: int|
            0 <= i < l1@.len() && l1@.len() == l2@.len() && #[trigger] functions_answer(l1@[i], l2@[i], eq, as_vec, false)
                ==> functions_answer(Function::List(l1), Function::List(l2), eq, as_vec, false),
{
}

/// Two arithmetic functions of the same operation compare equal only when
/// both their first operands and their second operands compare equal; and
/// they compare unequal when either operand pair does (the first operands
/// being looked at first).
pub proof fn lemma_arithmetic_functions_compare_both_operands<
    V,
    E: Fn(&V, &V) -> bool,
    A: Fn(&V) -> Option<Vec<V>>,
>(a1: Function<V>, b1: Function<V>, a2: Function<V>, b2: Function<V>, eq: E, as_vec: A)
    ensures
        forall|f1: Function<V>, f2: Function<V>|
            ((f1 == Function::Add(Box::new(a1), Box::new(b1)) && f2 == Function::Add(Box::new(a2), Box::new(b2)))
            || (f1 == Function::Sub(Box::new(a1), Box::new(b1)) && f2 == Function::Sub(Box::new(a2), Box::new(b2)))
            || (f1 == Function::Mul(Box::new(a1), Box::new(b1)) && f2 == Function::Mul(Box::new(a2), Box::new(b2)))
            || (f1 == Function::Div(Box::new(a1), Box::new(b1)) && f2 == Function::Div(Box::new(a2), Box::new(b2))))
                ==> {
                &&& #[trigger] functions_answer(f1, f2, eq, as_vec, true) ==> functions_answer(
                    a1,
                    a2,
                    eq,
                    as_vec,
                    true,
                ) && functions_answer(b1, b2, eq, as_vec, true)
                &&& functions_answer(a1, a2, eq, as_vec, false) ==> functions_answer(f1, f2, eq, as_vec, false)
                &&& functions_answer(a1, a2, eq, as_vec, true) && functions_answer(b1, b2, eq, as_vec, false)
                    ==> functions_answer(f1, f2, eq, as_vec, false)
            },
{
}

/// Whether two functions match: the same operations on matching operands.
pub fn compare_functions<V, E: Fn(&V, &V) -> bool, A: Fn(&V) -> Option<Vec<V>>>(
    function1: &Function<V>,
    function2: &Function<V>,
    eq: &E,
    as_vec: &A,
) -> (r: bool)
    requires
        value_ops_callable(*eq, *as_vec),
    ensures
        functions_answer(*function1, *function2, *eq, *as_vec, r),
    decreases function1,
{
    match (function1, function2) {
        (Function::Value(p1), Function::Value(p2)) => compare_pattern_items(p1, p2, true, eq, as_vec),
        (Function::Add(a1, b1), Function::Add(a2, b2))
        | (Function::Sub(a1, b1), Function::Sub(a2, b2))
        | (Function::Mul(a1, b1), Function::Mul(a2, b2))
        | (Function::Div(a1, b1), Function::Div(a2, b2)) => compare_functions(a1, a2, eq, as_vec)
            && compare_functions(b1, b2, eq, as_vec),
        (Function::List(l1), Function::List(l2)) => {
            if l1.len() != l2.len() {
                return false;
            }
            let mut i: usize = 0;
            while i < l1.len()
                invariant
                    i <= l1.len(),
                    l1@.len() == l2@.len(),
                    *function1 == Function::List(*l1),
                    *function2 == Function::List(*l2),
                    value_ops_callable(*eq, *as_vec),
                    forall|j: int|
                        0 <= j < i ==> functions_answer(#[trigger] l1@[j], l2@[j], *eq, *as_vec, true),
                decreases l1.len() - i,
            {
                proof {
                    assert(decreases_to!(*function1 => (*function1)->List_0));
                    assert(decreases_to!(l1 => l1[i as int]));
                }
                if !compare_functions(&l1[i], &l2[i], eq, as_vec) {
                    assert(functions_answer(l1@[i as int], l2@[i as int], *eq, *as_vec, false));
                    return false;
                }
                i = i + 1;
            }
            true
        },
        (Function::ConvertToEntityId(g1), Function::ConvertToEntityId(g2))
        | (Function::ConvertToNumber(g1), Function::ConvertToNumber(g2)) => compare_functions(
            g1,
            g2,
            eq,
            as_vec,
        ),
        _ => false,
    }
}

/// Whether and with which binding map adding the bindings of two items in
/// the same place ends: two values must compare equal under `eq`; a binding
/// maps to the binding in its place, replacing an earlier mapping; nested
/// patterns add item by item as far as the shorter goes, stopping at the
/// first failure; two wildcards add nothing; anything else fails.
pub open spec fn add_result<V, E: Fn(&V, &V) -> bool>(
    p1: PatternItem<V>,
    p2: PatternItem<V>,
    m: Map<Seq<char>, String>,
    eq: E,
) -> (bool, Map<Seq<char>, String>)
    decreases p1, 1int,
{
    match (p1, p2) {
        (PatternItem::Value(v1), PatternItem::Value(v2)) => (eq_answer(eq, v1, v2), m),
        (PatternItem::Binding(b1), PatternItem::Binding(b2)) => (true, m.insert(b1@, b2)),
        (PatternItem::Vec(v1), PatternItem::Vec(v2)) => {
            proof {
                assert(decreases_to!(v1 => v1@));
            }
            add_seq_result(v1@, v2@, min_len(v1@.len(), v2@.len()), m, eq)
        },
        (PatternItem::Any, PatternItem::Any) => (true, m),
        _ => (false, m),
    }
}

/// Adding the bindings of the first `n` pairs of items in order, stopping
/// at the first failure.
pub open spec fn add_seq_result<V, E: Fn(&V, &V) -> bool>(
    s1: Seq<PatternItem<V>>,
    s2: Seq<PatternItem<V>>,
    n: int,
    m: Map<Seq<char>, String>,
    eq: E,
) -> (bool, Map<Seq<char>, String>)
    decreases s1, n,
{
    if n <= 0 || n > s1.len() || n > s2.len() {
        (true, m)
    } else {
        let prev = add_seq_result(s1, s2, n - 1, m, eq);
        if !prev.0 {
            prev
        } else {
            add_result(s1[n - 1], s2[n - 1], prev.1, eq)
        }
    }
}

/// Once adding fails, adding more pairs changes nothing.
proof fn lemma_add_seq_stops<V, E: Fn(&V, &V) -> bool>(
    s1: Seq<PatternItem<V>>,
    s2: Seq<PatternItem<V>>,
    k: int,
    n: int,
    m: Map<Seq<char>, String>,
    eq: E,
)
    requires
        0 < k <= n <= s1.len(),
        n <= s2.len(),
        !add_seq_result(s1, s2, k, m, eq).0,
    ensures
        add_seq_result(s1, s2, n, m, eq) == add_seq_result(s1, s2, k, m, eq),
    decreases n - k,
{
    if k < n {
        lemma_add_seq_stops(s1, s2, k, n - 1, m, eq);
    }
}

/// Adds the bindings of the first `n` pairs of items in order to the map.
fn add_pairs_to_binding_map<V, E: Fn(&V, &V) -> bool>(
    s1: &Vec<PatternItem<V>>,
    s2: &Vec<PatternItem<V>>,
    n: usize,
    binding_map: &mut StrMap<String>,
    eq: &E,
) -> (r: bool)
    requires
        n <= s1@.len(),
        n <= s2@.len(),
        eq_answers(*eq),
    ensures
        (r, final(binding_map)@) == add_seq_result(s1@, s2@, n as int, old(binding_map)@, *eq),
    decreases s1, 0int,
{
    let ghost m0 = binding_map@;
    let mut i: usize = 0;
    while i < n
        invariant
            i <= n,
            n <= s1@.len(),
            n <= s2@.len(),
            eq_answers(*eq),
            m0 == old(binding_map)@,
            add_seq_result(s1@, s2@, i as int, m0, *eq) == (true, binding_map@),
        decreases n - i,
    {
        proof {
            assert(decreases_to!(s1 => s1[i as int]));
        }
        let ghost before = binding_map@;
        if !add_to_binding_map(&s1[i], &s2[i], binding_map, eq) {
            proof {
                assert(add_seq_result(s1@, s2@, i + 1, m0, *eq) == add_result(
                    s1@[i as int],
                    s2@[i as int],
                    before,
                    *eq,
                ));
                lemma_add_seq_stops(s1@, s2@, i + 1, n as int, m0, *eq);
            }
            return false;
        }
        i = i + 1;
    }
    true
}

/// Maps the bindings of one item to those in the same place in another:
/// `false` when the items differ in shape or in a value.
pub fn add_to_binding_map<V, E: Fn(&V, &V) -> bool>(
    p1: &PatternItem<V>,
    p2: &PatternItem<V>,
    binding_map: &mut StrMap<String>,
    eq: &E,
) -> (r: bool)
    requires
        eq_answers(*eq),
    ensures
        (r, final(binding_map)@) == add_result(*p1, *p2, old(binding_map)@, *eq),
    decreases p1, 1int,
{
    match (p1, p2) {
        (PatternItem::Value(v1), PatternItem::Value(v2)) => {
            assert(eq.requires((v1, v2)));
            eq(v1, v2)
        },
        (PatternItem::Binding(b1), PatternItem::Binding(b2)) => {
            binding_map.insert(b1.clone(), b2.clone());
            true
        },
        (PatternItem::Vec(v1), PatternItem::Vec(v2)) => {
            let n: usize = if v1.len() <= v2.len() {
                v1.len()
            } else {
                v2.len()
            };
            proof {
                assert(decreases_to!(*p1 => (*p1)->Vec_0));
            }
            add_pairs_to_binding_map(v1, v2, n, binding_map, eq)
        },
        (PatternItem::Any, PatternItem::Any) => true,
        _ => false,
    }
}

/// Maps the bindings of the parameters of one instantiated model to those
/// in the same place in another's, as far as the shorter goes: `false` at
/// the first pair that differs in shape or in a value.
pub fn construct_binding_map<V: Clone, E: Fn(&V, &V) -> bool>(
    imdl1: &IMdl<V>,
    imdl2: &IMdl<V>,
    binding_map: &mut StrMap<String>,
    eq: &E,
) -> (r: bool)
    requires
        eq_answers(*eq),
    ensures
        (r, final(binding_map)@) == add_seq_result(
            imdl1.params@,
            imdl2.params@,
            min_len(imdl1.params@.len(), imdl2.params@.len()),
            old(binding_map)@,
            *eq,
        ),
{
    let n: usize = if imdl1.params.len() <= imdl2.params.len() {
        imdl1.params.len()
    } else {
        imdl2.params.len()
    };
    add_pairs_to_binding_map(&imdl1.params, &imdl2.params, n, binding_map, eq)
}

/// `r` is an answer that comparing the left-hand sides of two causal models
/// may give: two instantiated models or two commands under the same name,
/// parameters compared with unbound items allowed and lengths equal.
pub open spec fn casual_lhs_answer<V: Clone, E: Fn(&V, &V) -> bool, A: Fn(&V) -> Option<Vec<V>>>(
    l1: MdlLeftValue<V>,
    l2: MdlLeftValue<V>,
    eq: E,
    as_vec: A,
    r: bool,
) -> bool {
    match (l1, l2) {
        (MdlLeftValue::IMdl(a), MdlLeftValue::IMdl(b)) => if r {
            a.model_id@ == b.model_id@ && patterns_compare_answer(
                a.params@,
                b.params@,
                true,
                false,
                eq,
                as_vec,
                true,
            )
        } else {
            a.model_id@ != b.model_id@ || patterns_compare_answer(
                a.params@,
                b.params@,
                true,
                false,
                eq,
                as_vec,
                false,
            )
        },
        (MdlLeftValue::Command(a), MdlLeftValue::Command(b)) => if r {
            a.name@ == b.name@ && patterns_compare_answer(
                a.params@,
                b.params@,
                true,
                false,
                eq,
                as_vec,
                true,
            )
        } else {
            a.name@ != b.name@ || patterns_compare_answer(
                a.params@,
                b.params@,
                true,
                false,
                eq,
                as_vec,
                false,
            )
        },
        _ => !r,
    }
}

/// `r` is an answer that comparing the right-hand sides of two causal models
/// may give: two values of the same variable, entities that agree, values
/// that compare with bindings taken as wildcards.
pub open spec fn casual_rhs_answer<V: Clone, E: Fn(&V, &V) -> bool, A: Fn(&V) -> Option<Vec<V>>>(
    r1: MdlRightValue<V>,
    r2: MdlRightValue<V>,
    eq: E,
    as_vec: A,
    r: bool,
) -> bool {
    match (r1, r2) {
        (MdlRightValue::MkVal(a), MdlRightValue::MkVal(b)) => if r {
            entities_agree(a.entity_id, b.entity_id) && a.var_name@ == b.var_name@
                && items_compare_answer(a.value, b.value, true, eq, as_vec, true)
        } else {
            !entities_agree(a.entity_id, b.entity_id) || a.var_name@ != b.var_name@
                || items_compare_answer(a.value, b.value, true, eq, as_vec, false)
        },
        _ => !r,
    }
}

/// `r` is an answer that comparing two lists of computed functions in order,
/// as far as the shorter goes, may give.
pub open spec fn computed_answer<V, E: Fn(&V, &V) -> bool, A: Fn(&V) -> Option<Vec<V>>>(
    c1: Seq<(String, Function<V>)>,
    c2: Seq<(String, Function<V>)>,
    eq: E,
    as_vec: A,
    r: bool,
) -> bool {
    if r {
        forall|i: int|
            0 <= i < c1.len() && i < c2.len() ==> functions_answer(
                (#[trigger] c1[i]).1,
                c2[i].1,
                eq,
                as_vec,
                true,
            )
    } else {
        exists|i: int|
            0 <= i < c1.len() && i < c2.len() && functions_answer(
                (#[trigger] c1[i]).1,
                c2[i].1,
                eq,
                as_vec,
                false,
            )
    }
}

/// Whether the computed functions of two models match in order, as far as
/// the shorter list goes.
fn compare_computed<V, E: Fn(&V, &V) -> bool, A: Fn(&V) -> Option<Vec<V>>>(
    c1: &Vec<(String, Function<V>)>,
    c2: &Vec<(String, Function<V>)>,
    eq: &E,
    as_vec: &A,
) -> (r: bool)
    requires
        value_ops_callable(*eq, *as_vec),
    ensures
        computed_answer(c1@, c2@, *eq, *as_vec, r),
{
    let mut i: usize = 0;
    while i < c1.len() && i < c2.len()
        invariant
            i <= c1.len(),
            value_ops_callable(*eq, *as_vec),
            forall|j: int|
                0 <= j < i && j < c2@.len() ==> functions_answer(
                    (#[trigger] c1@[j]).1,
                    c2@[j].1,
                    *eq,
                    *as_vec,
                    true,
                ),
        decreases c1.len() - i,
    {
        if !compare_functions(&c1[i].1, &c2[i].1, eq, as_vec) {
            assert(functions_answer(c1@[i as int].1, c2@[i as int].1, *eq, *as_vec, false));
            return false;
        }
        i = i + 1;
    }
    true
}

/// Whether two causal models match, bindings taken as wildcards: left-hand
/// sides, right-hand sides, and forward and backward computed functions in
/// order. All four are compared.
pub fn compare_casual_models<
    V: Clone,
    C,
    E: Fn(&V, &V) -> bool,
    A: Fn(&V) -> Option<Vec<V>>,
>(model1: &Mdl<V, C>, model2: &Mdl<V, C>, eq: &E, as_vec: &A) -> (r: bool)
    requires
        value_ops_callable(*eq, *as_vec),
    ensures
        r ==> {
            &&& casual_lhs_answer(model1.left.pattern, model2.left.pattern, *eq, *as_vec, true)
            &&& casual_rhs_answer(model1.right.pattern, model2.right.pattern, *eq, *as_vec, true)
            &&& computed_answer(
                model1.forward_computed@,
                model2.forward_computed@,
                *eq,
                *as_vec,
                true,
            )
            &&& computed_answer(
                model1.backward_computed@,
                model2.backward_computed@,
                *eq,
                *as_vec,
                true,
            )
        },
        !r ==> {
            ||| casual_lhs_answer(model1.left.pattern, model2.left.pattern, *eq, *as_vec, false)
            ||| casual_rhs_answer(model1.right.pattern, model2.right.pattern, *eq, *as_vec, false)
            ||| computed_answer(
                model1.forward_computed@,
                model2.forward_computed@,
                *eq,
                *as_vec,
                false,
            )
            ||| computed_answer(
                model1.backward_computed@,
                model2.backward_computed@,
                *eq,
                *as_vec,
                false,
            )
        },
{
    let lhs_equal = match (&model1.left.pattern, &model2.left.pattern) {
        (MdlLeftValue::IMdl(imdl1), MdlLeftValue::IMdl(imdl2)) => compare_imdls(
            imdl1,
            imdl2,
            true,
            false,
            eq,
            as_vec,
        ),
        (MdlLeftValue::Command(cmd1), MdlLeftValue::Command(cmd2)) => compare_commands(
            cmd1,
            cmd2,
            true,
            false,
            eq,
            as_vec,
        ),
        _ => false,
    };
    let rhs_equal = match (&model1.right.pattern, &model2.right.pattern) {
        (MdlRightValue::MkVal(mk_val1), MdlRightValue::MkVal(mk_val2)) => mk_val1.matches_mk_val(
            mk_val2,
            eq,
            as_vec,
        ),
        _ => false,
    };
    let forward_equal = compare_computed(
        &model1.forward_computed,
        &model2.forward_computed,
        eq,
        as_vec,
    );
    let backward_equal = compare_computed(
        &model1.backward_computed,
        &model2.backward_computed,
        eq,
        as_vec,
    );
    lhs_equal && rhs_equal && forward_equal && backward_equal
}

/// Some entity of `others` is declared under the binding `b` with the class.
pub open spec fn has_entity_binding(others: Seq<EntityDeclaration>, b: Seq<char>, class: Seq<char>) -> bool {
    exists|j: int| 0 <= j < others.len() && #[trigger] others[j].binding@ == b && others[j].class@ == class
}

/// The first of the first `n` entities of `others` declared of the class.
pub open spec fn first_of_class(others: Seq<EntityDeclaration>, class: Seq<char>, n: int) -> Option<
    int,
>
    decreases n,
{
    if n <= 0 || n > others.len() {
        None
    } else {
        match first_of_class(others, class, n - 1) {
            Some(j) => Some(j),
            None => if others[n - 1].class@ == class {
                Some(n - 1)
            } else {
                None
            },
        }
    }
}

/// Some binding is mapped to `b`.
pub open spec fn maps_onto(m: Map<Seq<char>, String>, b: Seq<char>) -> bool {
    exists|k: Seq<char>| #[trigger] m.contains_key(k) && m[k]@ == b
}

/// The names that the bindings are mapped to.
pub open spec fn value_names(m: Map<Seq<char>, String>) -> Set<Seq<char>> {
    Set::new(|x: Seq<char>| maps_onto(m, x))
}

/// The state of merging the entities of two composite states: the binding
/// map, the bindings found in both, the names given to pairs of bindings,
/// the counters of the names, and the merged declarations as pairs of
/// binding and class.
pub open spec fn entity_step(
    st: (
        Map<Seq<char>, String>,
        Set<Seq<char>>,
        Map<(Seq<char>, Seq<char>), Seq<char>>,
        Map<Seq<char>, usize>,
        Seq<(Seq<char>, Seq<char>)>,
    ),
    e: EntityDeclaration,
    others: Seq<EntityDeclaration>,
) -> (
    Map<Seq<char>, String>,
    Set<Seq<char>>,
    Map<(Seq<char>, Seq<char>), Seq<char>>,
    Map<Seq<char>, usize>,
    Seq<(Seq<char>, Seq<char>)>,
) {
    let (bm, matched, names, counters, decls) = st;
    if bm.contains_key(e.binding@) {
        let mapped = bm[e.binding@]@;
        if has_entity_binding(others, mapped, e.class@) {
            let after = naming_step((names, counters), (e.binding@, mapped));
            (
                bm,
                matched.insert(mapped),
                after.0,
                after.1,
                decls.push((after.0[ordered_pair(e.binding@, mapped)], e.class@)),
            )
        } else {
            st
        }
    } else {
        match first_of_class(others, e.class@, others.len() as int) {
            Some(j) => if !maps_onto(bm, others[j].binding@) {
                let after = naming_step((names, counters), (e.binding@, others[j].binding@));
                (
                    bm.insert(e.binding@, others[j].binding),
                    matched.insert(e.binding@),
                    after.0,
                    after.1,
                    decls.push((after.0[ordered_pair(e.binding@, others[j].binding@)], e.class@)),
                )
            } else {
                st
            },
            None => st,
        }
    }
}

/// The state after merging each of the entities `es` in turn: an entity
/// whose binding is mapped is kept when the other state declares the
/// binding it is mapped to; one whose binding is not mapped is mapped to the
/// first entity of the same class in the other state, unless some binding
/// already maps there.
pub open spec fn entities_fold(
    st: (
        Map<Seq<char>, String>,
        Set<Seq<char>>,
        Map<(Seq<char>, Seq<char>), Seq<char>>,
        Map<Seq<char>, usize>,
        Seq<(Seq<char>, Seq<char>)>,
    ),
    es: Seq<EntityDeclaration>,
    others: Seq<EntityDeclaration>,
) -> (
    Map<Seq<char>, String>,
    Set<Seq<char>>,
    Map<(Seq<char>, Seq<char>), Seq<char>>,
    Map<Seq<char>, usize>,
    Seq<(Seq<char>, Seq<char>)>,
)
    decreases es.len(),
{
    if es.len() == 0 {
        st
    } else {
        entity_step(entities_fold(st, es.drop_last(), others), es.last(), others)
    }
}

/// The fact's entity can be renamed: it is an id, or a binding the map
/// renames.
pub open spec fn fact_renamable<V: Clone>(f: Fact<MkVal<V>>, m: Map<Seq<char>, String>) -> bool {
    match f.pattern.entity_id {
        EntityPatternValue::Binding(b) => m.contains_key(b@),
        EntityPatternValue::EntityId(_) => true,
    }
}

/// `f2` matches `f` renamed by `m`: the same variable, a renamed value that
/// compares with `f2`'s, and the same entity once renamed.
pub open spec fn fact_partner<V: Clone, E: Fn(&V, &V) -> bool, A: Fn(&V) -> Option<Vec<V>>>(
    f: Fact<MkVal<V>>,
    m: Map<Seq<char>, String>,
    f2: Fact<MkVal<V>>,
    eq: E,
    as_vec: A,
) -> bool {
    &&& f.pattern.var_name@ == f2.pattern.var_name@
    &&& exists|q: PatternItem<V>|
        #[trigger] item_renamed(f.pattern.value, q, m) && cst_items_answer(
            q,
            f2.pattern.value,
            eq,
            as_vec,
            true,
        )
    &&& match f.pattern.entity_id {
        EntityPatternValue::Binding(b) => f2.pattern.entity_id is Binding
            && f2.pattern.entity_id->Binding_0@ == m[b@]@,
        EntityPatternValue::EntityId(id) => f2.pattern.entity_id is EntityId
            && f2.pattern.entity_id->EntityId_0@ == id@,
    }
}

/// The first of the first `n` facts of `others` that matches `f` renamed.
pub open spec fn first_partner<V: Clone, E: Fn(&V, &V) -> bool, A: Fn(&V) -> Option<Vec<V>>>(
    f: Fact<MkVal<V>>,
    m: Map<Seq<char>, String>,
    others: Seq<Fact<MkVal<V>>>,
    n: int,
    eq: E,
    as_vec: A,
) -> Option<int>
    decreases n,
{
    if n <= 0 || n > others.len() {
        None
    } else {
        match first_partner(f, m, others, n - 1, eq, as_vec) {
            Some(j) => Some(j),
            None => if fact_partner(f, m, others[n - 1], eq, as_vec) {
                Some(n - 1)
            } else {
                None
            },
        }
    }
}

/// The partner that fact `f` finds among `others`, if it can be renamed.
pub open spec fn fact_match<V: Clone, E: Fn(&V, &V) -> bool, A: Fn(&V) -> Option<Vec<V>>>(
    f: Fact<MkVal<V>>,
    m: Map<Seq<char>, String>,
    others: Seq<Fact<MkVal<V>>>,
    eq: E,
    as_vec: A,
) -> Option<int> {
    if fact_renamable(f, m) {
        first_partner(f, m, others, others.len() as int, eq, as_vec)
    } else {
        None
    }
}

/// The state of merging facts: the bindings found in both, the names
/// given to pairs of bindings, their counters, and for each merged fact the
/// place of the fact, the place of its partner and the names after merging
/// them. The first `n` facts are merged in turn, each with the partner it
/// finds, adding the names its bindings are renamed to.
pub open spec fn facts_fold<V: Clone, E: Fn(&V, &V) -> bool, A: Fn(&V) -> Option<Vec<V>>>(
    st: (
        Set<Seq<char>>,
        Map<(Seq<char>, Seq<char>), Seq<char>>,
        Map<Seq<char>, usize>,
        Seq<(int, int, Map<(Seq<char>, Seq<char>), Seq<char>>)>,
    ),
    facts: Seq<Fact<MkVal<V>>>,
    n: int,
    m: Map<Seq<char>, String>,
    others: Seq<Fact<MkVal<V>>>,
    eq: E,
    as_vec: A,
) -> (
    Set<Seq<char>>,
    Map<(Seq<char>, Seq<char>), Seq<char>>,
    Map<Seq<char>, usize>,
    Seq<(int, int, Map<(Seq<char>, Seq<char>), Seq<char>>)>,
)
    decreases n,
{
    if n <= 0 || n > facts.len() {
        st
    } else {
        let prev = facts_fold(st, facts, n - 1, m, others, eq, as_vec);
        let f = facts[n - 1];
        match fact_match(f, m, others, eq, as_vec) {
            Some(j) => {
                let after = naming_after(prev.1, prev.2, fact_pairs(f.pattern, others[j].pattern));
                (
                    prev.0.union(renamed_names(crate::types::mk_val_bindings(f.pattern), m)),
                    after.0,
                    after.1,
                    prev.3.push((n - 1, j, after.0)),
                )
            },
            None => prev,
        }
    }
}

/// Every fact that finds a partner has a value of the partner's shape.
pub open spec fn facts_mergeable<V: Clone, E: Fn(&V, &V) -> bool, A: Fn(&V) -> Option<Vec<V>>>(
    facts: Seq<Fact<MkVal<V>>>,
    m: Map<Seq<char>, String>,
    others: Seq<Fact<MkVal<V>>>,
    eq: E,
    as_vec: A,
) -> bool {
    forall|i: int|
        0 <= i < facts.len() && (#[trigger] fact_match(facts[i], m, others, eq, as_vec)) is Some
            ==> items_mergeable(
            facts[i].pattern.value,
            others[fact_match(facts[i], m, others, eq, as_vec)->Some_0].pattern.value,
        )
}

/// How many bindings the facts hold, counted with repetitions.
pub open spec fn facts_binding_count<V: Clone>(facts: Seq<Fact<MkVal<V>>>) -> nat
    decreases facts.len(),
{
    if facts.len() == 0 {
        0
    } else {
        facts_binding_count(facts.drop_last()) + crate::types::mk_val_bindings(
            facts.last().pattern,
        ).len()
    }
}

/// `r` is an answer that comparing two causal models may give.
pub open spec fn casual_models_answer<
    V: Clone,
    C,
    E: Fn(&V, &V) -> bool,
    A: Fn(&V) -> Option<Vec<V>>,
>(model1: Mdl<V, C>, model2: Mdl<V, C>, eq: E, as_vec: A, r: bool) -> bool {
    if r {
        &&& casual_lhs_answer(model1.left.pattern, model2.left.pattern, eq, as_vec, true)
        &&& casual_rhs_answer(model1.right.pattern, model2.right.pattern, eq, as_vec, true)
        &&& computed_answer(model1.forward_computed@, model2.forward_computed@, eq, as_vec, true)
        &&& computed_answer(model1.backward_computed@, model2.backward_computed@, eq, as_vec, true)
    } else {
        ||| casual_lhs_answer(model1.left.pattern, model2.left.pattern, eq, as_vec, false)
        ||| casual_rhs_answer(model1.right.pattern, model2.right.pattern, eq, as_vec, false)
        ||| computed_answer(model1.forward_computed@, model2.forward_computed@, eq, as_vec, false)
        ||| computed_answer(model1.backward_computed@, model2.backward_computed@, eq, as_vec, false)
    }
}

/// `r` merges fact `f1` with `f2` under `names`, as `merge_facts` does.
pub open spec fn fact_merged<V: Clone>(
    f1: Fact<MkVal<V>>,
    f2: Fact<MkVal<V>>,
    r: Fact<MkVal<V>>,
    names: Map<(Seq<char>, Seq<char>), Seq<char>>,
) -> bool {
    &&& r.time_range == f1.time_range
    &&& r.pattern.var_name == f1.pattern.var_name
    &&& r.pattern.assumption == f1.pattern.assumption
    &&& match (f1.pattern.entity_id, f2.pattern.entity_id) {
        (EntityPatternValue::Binding(b1), EntityPatternValue::Binding(b2)) => {
            &&& r.pattern.entity_id is Binding
            &&& names.contains_key(ordered_pair(b1@, b2@))
            &&& r.pattern.entity_id->Binding_0@ == names[ordered_pair(b1@, b2@)]
        },
        _ => r.pattern.entity_id == f1.pattern.entity_id,
    }
    &&& item_merged(f1.pattern.value, f2.pattern.value, r.pattern.value, names)
}

/// The binding map of two requirement models: their right-hand sides are
/// instantiated models whose parameters, of the same length, map one's
/// bindings to the other's.
pub open spec fn req_binding_map<V: Clone, C, E: Fn(&V, &V) -> bool>(
    req_model: Mdl<V, C>,
    other_req_model: Mdl<V, C>,
    eq: E,
) -> Option<Map<Seq<char>, String>> {
    match (req_model.right.pattern, other_req_model.right.pattern) {
        (MdlRightValue::IMdl(i1), MdlRightValue::IMdl(i2)) => if i1.params@.len()
            != i2.params@.len() {
            None
        } else {
            let (ok, bm) = add_seq_result(
                i1.params@,
                i2.params@,
                i1.params@.len() as int,
                Map::empty(),
                eq,
            );
            if ok {
                Some(bm)
            } else {
                None
            }
        },
        _ => None,
    }
}

/// What comparing the effects of two pairs of models gives once their
/// causal models match: the merged declarations and, for each merged fact,
/// the places of the two facts and the names after merging them; `None`
/// when the requirement models give no binding map or the bindings found in
/// both states are not the bindings the map maps to.
pub open spec fn model_effects_outcome<
    V: Clone,
    C,
    E: Fn(&V, &V) -> bool,
    A: Fn(&V) -> Option<Vec<V>>,
>(
    cst: Cst<V>,
    req_model: Mdl<V, C>,
    other_cst: Cst<V>,
    other_req_model: Mdl<V, C>,
    eq: E,
    as_vec: A,
) -> Option<
    (Seq<(Seq<char>, Seq<char>)>, Seq<(int, int, Map<(Seq<char>, Seq<char>), Seq<char>>)>),
> {
    match req_binding_map(req_model, other_req_model, eq) {
        Some(bm0) => {
            let es = entities_fold(
                (bm0, Set::empty(), Map::empty(), Map::empty(), seq![]),
                cst.entities@,
                other_cst.entities@,
            );
            let fs = facts_fold(
                (es.1, es.2, es.3, seq![]),
                cst.facts@,
                cst.facts@.len() as int,
                es.0,
                other_cst.facts@,
                eq,
                as_vec,
            );
            if fs.0 == value_names(bm0) {
                Some((es.4, fs.3))
            } else {
                None
            }
        },
        None => None,
    }
}

/// Once the first of a prefix of entities of the class is found, longer
/// prefixes find the same.
proof fn lemma_first_of_class_stable(others: Seq<EntityDeclaration>, class: Seq<char>, k: int, n: int)
    requires
        0 <= k <= n <= others.len(),
        first_of_class(others, class, k) is Some,
    ensures
        first_of_class(others, class, n) == first_of_class(others, class, k),
    decreases n - k,
{
    if k < n {
        lemma_first_of_class_stable(others, class, k, n - 1);
    }
}

/// Whether the name is among the names.
fn name_in(v: &Vec<String>, s: &String) -> (r: bool)
    ensures
        r == name_set(v@).contains(s@),
{
    let mut i: usize = 0;
    while i < v.len()
        invariant
            i <= v.len(),
            forall|j: int| 0 <= j < i ==> (#[trigger] v@[j])@ != s@,
        decreases v.len() - i,
    {
        if v[i] == *s {
            assert(strings_view(v@)[i as int] == s@);
            return true;
        }
        i = i + 1;
    }
    assert forall|j: int| 0 <= j < strings_view(v@).len() implies strings_view(v@)[j] != s@ by {
        assert(strings_view(v@)[j] == v@[j]@);
    }
    false
}

/// Whether the two lists hold the same names.
fn same_names(a: &Vec<String>, b: &Vec<String>) -> (r: bool)
    ensures
        r == (name_set(a@) == name_set(b@)),
{
    let mut i: usize = 0;
    while i < a.len()
        invariant
            i <= a.len(),
            forall|j: int| 0 <= j < i ==> name_set(b@).contains(#[trigger] strings_view(a@)[j]),
        decreases a.len() - i,
    {
        assert(strings_view(a@)[i as int] == a@[i as int]@);
        if !name_in(b, &a[i]) {
            assert(name_set(a@).contains(a@[i as int]@));
            return false;
        }
        i = i + 1;
    }
    let mut j: usize = 0;
    while j < b.len()
        invariant
            j <= b.len(),
            forall|k: int| 0 <= k < a@.len() ==> name_set(b@).contains(#[trigger] strings_view(a@)[k]),
            forall|k: int| 0 <= k < j ==> name_set(a@).contains(#[trigger] strings_view(b@)[k]),
        decreases b.len() - j,
    {
        assert(strings_view(b@)[j as int] == b@[j as int]@);
        if !name_in(a, &b[j]) {
            assert(name_set(b@).contains(b@[j as int]@));
            return false;
        }
        j = j + 1;
    }
    assert(name_set(a@) =~= name_set(b@)) by {
        assert forall|x: Seq<char>| name_set(a@).contains(x) implies name_set(b@).contains(x) by {
            let k = choose|k: int| 0 <= k < strings_view(a@).len() && strings_view(a@)[k] == x;
        }
        assert forall|x: Seq<char>| name_set(b@).contains(x) implies name_set(a@).contains(x) by {
            let k = choose|k: int| 0 <= k < strings_view(b@).len() && strings_view(b@)[k] == x;
        }
    }
    true
}

/// The names that the bindings of the map are mapped to, each once.
fn value_name_set(m: &StrMap<String>) -> (r: Vec<String>)
    ensures
        strings_view(r@).no_duplicates(),
        name_set(r@) == value_names(m@),
{
    let ghost ev = m.entries_view();
    let n = m.len();
    let mut out: Vec<String> = Vec::new();
    let mut i: usize = 0;
    assert(name_set(out@) =~= Set::<Seq<char>>::empty());
    while i < n
        invariant
            i <= n,
            n == ev.len(),
            ev == m.entries_view(),
            strings_view(out@).no_duplicates(),
            forall|j: int|
                0 <= j < i ==> m@.contains_key(#[trigger] ev[j].0) && m@[ev[j].0] == ev[j].1,
            name_set(out@) == Set::new(
                |x: Seq<char>| exists|j: int| 0 <= j < i && (#[trigger] ev[j]).1@ == x,
            ),
        decreases n - i,
    {
        let (_, v) = m.entry_at(i);
        let ghost before = name_set(out@);
        insert_name(&mut out, v);
        assert(name_set(out@) =~= Set::new(
            |x: Seq<char>| exists|j: int| 0 <= j < i + 1 && (#[trigger] ev[j]).1@ == x,
        )) by {
            assert forall|x: Seq<char>|
                (exists|j: int| 0 <= j < i + 1 && (#[trigger] ev[j]).1@ == x) implies name_set(
                out@,
            ).contains(x) by {
                let j = choose|j: int| 0 <= j < i + 1 && (#[trigger] ev[j]).1@ == x;
                if j < i {
                    assert(before.contains(x));
                }
            }
            assert forall|x: Seq<char>| name_set(out@).contains(x) implies (exists|j: int|
                0 <= j < i + 1 && (#[trigger] ev[j]).1@ == x) by {
                if x == v@ {
                    assert(ev[i as int].1@ == x);
                } else {
                    assert(before.contains(x));
                }
            }
        }
        i = i + 1;
    }
    assert(name_set(out@) =~= value_names(m@)) by {
        assert forall|x: Seq<char>| name_set(out@).contains(x) implies value_names(m@).contains(x) by {
            let j = choose|j: int| 0 <= j < n && (#[trigger] ev[j]).1@ == x;
            assert(m@.contains_key(ev[j].0) && m@[ev[j].0]@ == x);
        }
        assert forall|x: Seq<char>| value_names(m@).contains(x) implies name_set(out@).contains(x) by {
            let k = choose|k: Seq<char>| #[trigger] m@.contains_key(k) && m@[k]@ == x;
            crate::str_map::lemma_entries_map_contains(ev, k);
            let j = choose|j: int| 0 <= j < ev.len() && #[trigger] ev[j].0 == k;
            crate::str_map::lemma_entries_map_index(ev, j);
            assert(ev[j].1@ == x);
        }
    }
    out
}

/// Whether some binding of the map is mapped to `b`.
fn maps_onto_name(m: &StrMap<String>, b: &String) -> (r: bool)
    ensures
        r == maps_onto(m@, b@),
{
    let ghost ev = m.entries_view();
    let n = m.len();
    let mut i: usize = 0;
    while i < n
        invariant
            i <= n,
            n == ev.len(),
            ev == m.entries_view(),
            forall|j: int| 0 <= j < i ==> (#[trigger] ev[j]).1@ != b@,
        decreases n - i,
    {
        let (k, v) = m.entry_at(i);
        if *v == *b {
            assert(m@.contains_key(k@) && m@[k@]@ == b@);
            return true;
        }
        i = i + 1;
    }
    assert(!maps_onto(m@, b@)) by {
        if maps_onto(m@, b@) {
            let k = choose|k: Seq<char>| #[trigger] m@.contains_key(k) && m@[k]@ == b@;
            crate::str_map::lemma_entries_map_contains(ev, k);
            let j = choose|j: int| 0 <= j < ev.len() && #[trigger] ev[j].0 == k;
            crate::str_map::lemma_entries_map_index(ev, j);
            assert(ev[j].1@ == b@);
        }
    }
    false
}

/// Whether some entity of the class is declared under the binding.
fn declares_binding(others: &Vec<EntityDeclaration>, b: &String, class: &String) -> (r: bool)
    ensures
        r == has_entity_binding(others@, b@, class@),
{
    let mut i: usize = 0;
    while i < others.len()
        invariant
            i <= others.len(),
            forall|j: int|
                0 <= j < i ==> !((#[trigger] others@[j]).binding@ == b@ && others@[j].class@ == class@),
        decreases others.len() - i,
    {
        if others[i].binding == *b && others[i].class == *class {
            return true;
        }
        i = i + 1;
    }
    false
}

/// The first entity declared of the class.
fn find_first_of_class(others: &Vec<EntityDeclaration>, class: &String) -> (r: Option<usize>)
    ensures
        r matches Some(j) ==> j < others@.len(),
        match r {
            Some(j) => first_of_class(others@, class@, others@.len() as int) == Some(j as int),
            None => first_of_class(others@, class@, others@.len() as int) is None,
        },
{
    let mut i: usize = 0;
    while i < others.len()
        invariant
            i <= others.len(),
            first_of_class(others@, class@, i as int) is None,
        decreases others.len() - i,
    {
        if others[i].class == *class {
            assert(first_of_class(others@, class@, i + 1) == Some(i as int));
            proof {
                lemma_first_of_class_stable(others@, class@, i + 1, others@.len() as int);
            }
            return Some(i);
        }
        i = i + 1;
    }
    None
}

/// Once a prefix of the facts holds a partner, longer prefixes find the
/// same.
proof fn lemma_first_partner_stable<V: Clone, E: Fn(&V, &V) -> bool, A: Fn(&V) -> Option<Vec<V>>>(
    f: Fact<MkVal<V>>,
    m: Map<Seq<char>, String>,
    others: Seq<Fact<MkVal<V>>>,
    k: int,
    n: int,
    eq: E,
    as_vec: A,
)
    requires
        0 <= k <= n <= others.len(),
        first_partner(f, m, others, k, eq, as_vec) is Some,
    ensures
        first_partner(f, m, others, n, eq, as_vec) == first_partner(f, m, others, k, eq, as_vec),
    decreases n - k,
{
    if k < n {
        lemma_first_partner_stable(f, m, others, k, n - 1, eq, as_vec);
    }
}

/// The first partner found is a partner.
proof fn lemma_first_partner_found<V: Clone, E: Fn(&V, &V) -> bool, A: Fn(&V) -> Option<Vec<V>>>(
    f: Fact<MkVal<V>>,
    m: Map<Seq<char>, String>,
    others: Seq<Fact<MkVal<V>>>,
    n: int,
    eq: E,
    as_vec: A,
)
    requires
        first_partner(f, m, others, n, eq, as_vec) is Some,
    ensures
        0 <= first_partner(f, m, others, n, eq, as_vec)->Some_0 < n,
        n <= others.len(),
        fact_partner(f, m, others[first_partner(f, m, others, n, eq, as_vec)->Some_0], eq, as_vec),
    decreases n,
{
    if first_partner(f, m, others, n - 1, eq, as_vec) is Some {
        lemma_first_partner_found(f, m, others, n - 1, eq, as_vec);
    }
}

/// The first fact among `others` that matches the renamed fact `fm`, a
/// copy of `f` with its bindings renamed by the map.
fn find_partner<V: Clone, E: Fn(&V, &V) -> bool, A: Fn(&V) -> Option<Vec<V>>>(
    f: &Fact<MkVal<V>>,
    fm: &Fact<MkVal<V>>,
    binding_map: &StrMap<String>,
    others: &Vec<Fact<MkVal<V>>>,
    eq: &E,
    as_vec: &A,
) -> (r: Option<usize>)
    requires
        eq_answers(*eq),
        as_vec_reads(*as_vec),
        clones_equal::<V>(),
        fact_renamable(*f, binding_map@),
        fm.pattern.var_name == f.pattern.var_name,
        match f.pattern.entity_id {
            EntityPatternValue::Binding(b) => fm.pattern.entity_id is Binding
                && fm.pattern.entity_id->Binding_0@ == binding_map@[b@]@,
            EntityPatternValue::EntityId(id) => fm.pattern.entity_id == f.pattern.entity_id,
        },
        item_renamed(f.pattern.value, fm.pattern.value, binding_map@),
    ensures
        r matches Some(j) ==> j < others@.len(),
        match r {
            Some(j) => first_partner(
                *f,
                binding_map@,
                others@,
                others@.len() as int,
                *eq,
                *as_vec,
            ) == Some(j as int),
            None => first_partner(
                *f,
                binding_map@,
                others@,
                others@.len() as int,
                *eq,
                *as_vec,
            ) is None,
        },
{
    let ghost m = binding_map@;
    let mut j: usize = 0;
    while j < others.len()
        invariant
            j <= others.len(),
            eq_answers(*eq),
            as_vec_reads(*as_vec),
            clones_equal::<V>(),
            m == binding_map@,
            fm.pattern.var_name == f.pattern.var_name,
            match f.pattern.entity_id {
                EntityPatternValue::Binding(b) => fm.pattern.entity_id is Binding
                    && fm.pattern.entity_id->Binding_0@ == m[b@]@,
                EntityPatternValue::EntityId(id) => fm.pattern.entity_id == f.pattern.entity_id,
            },
            item_renamed(f.pattern.value, fm.pattern.value, m),
            first_partner(*f, m, others@, j as int, *eq, *as_vec) is None,
        decreases others.len() - j,
    {
        let f2 = &others[j];
        let same_var = fm.pattern.var_name == f2.pattern.var_name;
        let same_value = compare_cst_fact_pattern_items(
            &fm.pattern.value,
            &f2.pattern.value,
            eq,
            as_vec,
        );
        let same_entity = fm.pattern.entity_id == f2.pattern.entity_id;
        proof {
            let q0 = fm.pattern.value;
            if same_value {
                assert(item_renamed(f.pattern.value, q0, m) && cst_items_answer(
                    q0,
                    f2.pattern.value,
                    *eq,
                    *as_vec,
                    true,
                ));
            } else {
                lemma_cst_items_exclusive(q0, f2.pattern.value, *eq, *as_vec);
                assert forall|q: PatternItem<V>|
                    #[trigger] item_renamed(f.pattern.value, q, m) implies !cst_items_answer(
                    q,
                    f2.pattern.value,
                    *eq,
                    *as_vec,
                    true,
                ) by {
                    lemma_renamed_cst_answer(
                        f.pattern.value,
                        q,
                        q0,
                        m,
                        f2.pattern.value,
                        *eq,
                        *as_vec,
                        true,
                    );
                }
            }
            assert((same_var && same_value && same_entity) == fact_partner(
                *f,
                m,
                *f2,
                *eq,
                *as_vec,
            ));
        }
        if same_var && same_value && same_entity {
            assert(first_partner(*f, m, others@, j + 1, *eq, *as_vec) == Some(j as int));
            proof {
                lemma_first_partner_stable(
                    *f,
                    m,
                    others@,
                    j + 1,
                    others@.len() as int,
                    *eq,
                    *as_vec,
                );
            }
            return Some(j);
        }
        j = j + 1;
    }
    None
}

/// Naming one pair moves each counter by at most one.
proof fn lemma_naming_step_counters(
    names: Map<(Seq<char>, Seq<char>), Seq<char>>,
    counters: Map<Seq<char>, usize>,
    pair: (Seq<char>, Seq<char>),
)
    requires
        names.contains_key(ordered_pair(pair.0, pair.1)) || can_name(counters, pair.0),
    ensures
        forall|x: Seq<char>|
            #[trigger] counter_of(naming_step((names, counters), pair).1, x) <= counter_of(
                counters,
                x,
            ) + 1,
{
}

/// Merges the entities of one composite state with those of another, in
/// order: an entity whose binding is mapped is kept, under the name of the
/// pair, when the other state declares the binding it is mapped to; one
/// whose binding is not mapped is mapped to the first entity of the same
/// class in the other state and kept, unless some binding already maps
/// there. Kept bindings are noted as found in both states.
fn merge_entities(
    entities: &Vec<EntityDeclaration>,
    others: &Vec<EntityDeclaration>,
    binding_map: &mut StrMap<String>,
    matched: &mut Vec<String>,
    combined: &mut CombinedCstBindingMap,
) -> (r: Vec<EntityDeclaration>)
    requires
        strings_view(old(matched)@).no_duplicates(),
        forall|x: Seq<char>|
            #[trigger] counter_of(old(combined).counters(), x) + entities@.len() < usize::MAX,
    ensures
        (
            final(binding_map)@,
            name_set(final(matched)@),
            final(combined).names(),
            final(combined).counters(),
            decl_views(r@),
        ) == entities_fold(
            (
                old(binding_map)@,
                name_set(old(matched)@),
                old(combined).names(),
                old(combined).counters(),
                seq![],
            ),
            entities@,
            others@,
        ),
        strings_view(final(matched)@).no_duplicates(),
        forall|x: Seq<char>|
            #[trigger] counter_of(final(combined).counters(), x) <= counter_of(
                old(combined).counters(),
                x,
            ) + entities@.len(),
{
    let ghost st0 = (
        binding_map@,
        name_set(matched@),
        combined.names(),
        combined.counters(),
        Seq::<(Seq<char>, Seq<char>)>::empty(),
    );
    let ghost c0 = combined.counters();
    let mut out: Vec<EntityDeclaration> = Vec::new();
    let mut i: usize = 0;
    assert(entities@.subrange(0, 0) =~= Seq::<EntityDeclaration>::empty());
    assert(decl_views(out@) =~= Seq::<(Seq<char>, Seq<char>)>::empty());
    while i < entities.len()
        invariant
            i <= entities.len(),
            c0 == old(combined).counters(),
            st0 == (
                old(binding_map)@,
                name_set(old(matched)@),
                old(combined).names(),
                old(combined).counters(),
                Seq::<(Seq<char>, Seq<char>)>::empty(),
            ),
            forall|x: Seq<char>| #[trigger] counter_of(c0, x) + entities@.len() < usize::MAX,
            strings_view(matched@).no_duplicates(),
            forall|x: Seq<char>| #[trigger] counter_of(combined.counters(), x) <= counter_of(c0, x) + i,
            (binding_map@, name_set(matched@), combined.names(), combined.counters(), decl_views(out@))
                == entities_fold(st0, entities@.subrange(0, i as int), others@),
        decreases entities.len() - i,
    {
        let e = &entities[i];
        let ghost prefix = entities@.subrange(0, i + 1);
        assert(prefix.drop_last() =~= entities@.subrange(0, i as int));
        assert(prefix.last() == *e);
        let ghost before_decls = decl_views(out@);
        let ghost names0 = combined.names();
        let ghost counters0 = combined.counters();
        assert(can_name(counters0, e.binding@)) by {
            assert(counter_of(c0, var_prefix(e.binding@)) + entities@.len() < usize::MAX);
            assert(counter_of(counters0, var_prefix(e.binding@)) <= counter_of(
                c0,
                var_prefix(e.binding@),
            ) + i);
        }
        let mapped: Option<String> = match binding_map.get(&e.binding) {
            Some(v) => Some(v.clone()),
            None => None,
        };
        match mapped {
            Some(mb) => {
                if declares_binding(others, &mb, &e.class) {
                    insert_name(matched, &mb);
                    proof {
                        lemma_naming_step_counters(names0, counters0, (e.binding@, mb@));
                    }
                    let nb = combined.get_new_var_name(&e.binding, &mb);
                    assert(combined.counters() == naming_step((names0, counters0), (e.binding@, mb@)).1);
                    out.push(EntityDeclaration::new(&nb, &e.class));
                    assert(decl_views(out@) =~= before_decls.push((nb@, e.class@)));
                }
            },
            None => {
                match find_first_of_class(others, &e.class) {
                    Some(j) => {
                        let e2 = &others[j];
                        if !maps_onto_name(binding_map, &e2.binding) {
                            binding_map.insert(e.binding.clone(), e2.binding.clone());
                            insert_name(matched, &e.binding);
                            proof {
                                lemma_naming_step_counters(names0, counters0, (e.binding@, e2.binding@));
                            }
                            let nb = combined.get_new_var_name(&e.binding, &e2.binding);
                            assert(combined.counters() == naming_step(
                                (names0, counters0),
                                (e.binding@, e2.binding@),
                            ).1);
                            out.push(EntityDeclaration::new(&nb, &e.class));
                            assert(decl_views(out@) =~= before_decls.push((nb@, e.class@)));
                        }
                    },
                    None => {},
                }
            },
        }
        i = i + 1;
    }
    assert(entities@.subrange(0, i as int) =~= entities@);
    out
}

/// The pairs of bindings of two items are no more than the first item's
/// bindings.
proof fn lemma_item_pairs_len<V>(a: PatternItem<V>, b: PatternItem<V>)
    ensures
        item_pairs(a, b).len() <= item_bindings(a).len(),
    decreases a, 1int,
{
    match (a, b) {
        (PatternItem::Vec(v), PatternItem::Vec(w)) => {
            assert(decreases_to!(a => v));
            assert(decreases_to!(v => v@));
            let n = min_len(v@.len(), w@.len());
            lemma_pairs_upto_len(v@, w@, n);
            lemma_pattern_bindings_prefix_len(v@, n);
        },
        _ => {},
    }
}

/// The pairs of bindings of the first `n` items of two patterns are no more
/// than the bindings of the first pattern's first `n` items.
proof fn lemma_pairs_upto_len<V>(s: Seq<PatternItem<V>>, t: Seq<PatternItem<V>>, n: int)
    requires
        0 <= n <= s.len(),
        n <= t.len(),
    ensures
        pairs_upto(s, t, n).len() <= pattern_bindings(s.subrange(0, n)).len(),
    decreases s, n,
{
    if n > 0 {
        lemma_pairs_upto_len(s, t, n - 1);
        lemma_item_pairs_len(s[n - 1], t[n - 1]);
        assert(s.subrange(0, n).drop_last() =~= s.subrange(0, n - 1));
        assert(s.subrange(0, n).last() == s[n - 1]);
    } else {
        assert(s.subrange(0, 0) =~= Seq::<PatternItem<V>>::empty());
    }
}

/// A prefix of a pattern has no more bindings than the pattern.
proof fn lemma_pattern_bindings_prefix_len<V>(s: Seq<PatternItem<V>>, n: int)
    requires
        0 <= n <= s.len(),
    ensures
        pattern_bindings(s.subrange(0, n)).len() <= pattern_bindings(s).len(),
    decreases s.len(),
{
    if n < s.len() {
        lemma_pattern_bindings_prefix_len(s.drop_last(), n);
        assert(s.drop_last().subrange(0, n) =~= s.subrange(0, n));
    } else {
        assert(s.subrange(0, n) =~= s);
    }
}

/// Merging two facts names no more pairs than the first fact has bindings.
proof fn lemma_fact_pairs_len<V>(m1: MkVal<V>, m2: MkVal<V>)
    ensures
        fact_pairs(m1, m2).len() <= crate::types::mk_val_bindings(m1).len(),
{
    lemma_item_pairs_len(m1.value, m2.value);
}

/// A prefix of the facts holds no more bindings than the facts.
proof fn lemma_facts_binding_count_prefix<V: Clone>(facts: Seq<Fact<MkVal<V>>>, n: int)
    requires
        0 <= n <= facts.len(),
    ensures
        facts_binding_count(facts.subrange(0, n)) <= facts_binding_count(facts),
    decreases facts.len(),
{
    if n < facts.len() {
        lemma_facts_binding_count_prefix(facts.drop_last(), n);
        assert(facts.drop_last().subrange(0, n) =~= facts.subrange(0, n));
    } else {
        assert(facts.subrange(0, n) =~= facts);
    }
}

/// The bindings of a renamed fact are the names its bindings are renamed to.
proof fn lemma_renamed_fact_bindings<V: Clone>(
    f: Fact<MkVal<V>>,
    fm: Fact<MkVal<V>>,
    m: Map<Seq<char>, String>,
)
    requires
        fact_renamable(f, m),
        match f.pattern.entity_id {
            EntityPatternValue::Binding(b) => fm.pattern.entity_id is Binding
                && fm.pattern.entity_id->Binding_0@ == m[b@]@,
            EntityPatternValue::EntityId(id) => fm.pattern.entity_id == f.pattern.entity_id,
        },
        item_renamed(f.pattern.value, fm.pattern.value, m),
    ensures
        crate::types::mk_val_bindings(fm.pattern).to_set() == renamed_names(
            crate::types::mk_val_bindings(f.pattern),
            m,
        ),
{
    lemma_renamed_bindings(f.pattern.value, fm.pattern.value, m);
    let a = crate::types::mk_val_bindings(fm.pattern);
    let b = crate::types::mk_val_bindings(f.pattern);
    let qa = item_bindings(fm.pattern.value);
    let pb = item_bindings(f.pattern.value);
    assert forall|x: Seq<char>| a.to_set().contains(x) == renamed_names(b, m).contains(x) by {
        match f.pattern.entity_id {
            EntityPatternValue::Binding(e) => {
                let n = fm.pattern.entity_id->Binding_0;
                assert(a =~= seq![n@] + qa);
                assert(b =~= seq![e@] + pb);
                if a.contains(x) {
                    let k = choose|k: int| 0 <= k < a.len() && a[k] == x;
                    if k == 0 {
                        assert(b[0] == e@);
                        assert(b.contains(e@));
                    } else {
                        assert(qa[k - 1] == x);
                        assert(qa.contains(x));
                        let c = choose|c: Seq<char>| #[trigger] pb.contains(c) && m.contains_key(c) && m[c]@ == x;
                        let l = choose|l: int| 0 <= l < pb.len() && pb[l] == c;
                        assert(b[l + 1] == c);
                        assert(b.contains(c));
                    }
                }
                if renamed_to(b, m, x) {
                    let c = choose|c: Seq<char>| #[trigger] b.contains(c) && m.contains_key(c) && m[c]@ == x;
                    let l = choose|l: int| 0 <= l < b.len() && b[l] == c;
                    if l == 0 {
                        assert(a[0] == x);
                    } else {
                        assert(pb[l - 1] == c);
                        assert(pb.contains(c));
                        assert(renamed_to(pb, m, x));
                        assert(qa.contains(x));
                        let k = choose|k: int| 0 <= k < qa.len() && qa[k] == x;
                        assert(a[k + 1] == x);
                    }
                }
            },
            EntityPatternValue::EntityId(_) => {
                assert(a == qa);
                assert(b == pb);
            },
        }
    }
    assert(a.to_set() =~= renamed_names(b, m));
}

/// Merges each fact of one composite state, renamed by the binding map,
/// with the first fact of the other state that matches it, in order; the
/// names that a merged fact's bindings are renamed to are noted as found in
/// both states. Facts that cannot be renamed or find no match are dropped.
fn merge_matching_facts<V: Clone, E: Fn(&V, &V) -> bool, A: Fn(&V) -> Option<Vec<V>>>(
    facts: &Vec<Fact<MkVal<V>>>,
    others: &Vec<Fact<MkVal<V>>>,
    binding_map: &StrMap<String>,
    matched: &mut Vec<String>,
    combined: &mut CombinedCstBindingMap,
    eq: &E,
    as_vec: &A,
) -> (r: Vec<Fact<MkVal<V>>>)
    requires
        eq_answers(*eq),
        as_vec_reads(*as_vec),
        clones_equal::<V>(),
        strings_view(old(matched)@).no_duplicates(),
        facts_mergeable(facts@, binding_map@, others@, *eq, *as_vec),
        forall|x: Seq<char>|
            #[trigger] counter_of(old(combined).counters(), x) + facts_binding_count(facts@)
                < usize::MAX,
    ensures
        ({
            let fs = facts_fold(
                (name_set(old(matched)@), old(combined).names(), old(combined).counters(), seq![]),
                facts@,
                facts@.len() as int,
                binding_map@,
                others@,
                *eq,
                *as_vec,
            );
            &&& name_set(final(matched)@) == fs.0
            &&& final(combined).names() == fs.1
            &&& final(combined).counters() == fs.2
            &&& r@.len() == fs.3.len()
            &&& forall|k: int|
                0 <= k < r@.len() ==> fact_merged(
                    facts@[fs.3[k].0],
                    others@[fs.3[k].1],
                    #[trigger] r@[k],
                    fs.3[k].2,
                )
        }),
        strings_view(final(matched)@).no_duplicates(),
{
    let ghost m = binding_map@;
    let ghost c0 = combined.counters();
    let ghost st0 = (
        name_set(matched@),
        combined.names(),
        combined.counters(),
        Seq::<(int, int, Map<(Seq<char>, Seq<char>), Seq<char>>)>::empty(),
    );
    let mut out: Vec<Fact<MkVal<V>>> = Vec::new();
    let mut i: usize = 0;
    while i < facts.len()
        invariant
            i <= facts.len(),
            eq_answers(*eq),
            as_vec_reads(*as_vec),
            clones_equal::<V>(),
            m == binding_map@,
            c0 == old(combined).counters(),
            st0 == (
                name_set(old(matched)@),
                old(combined).names(),
                old(combined).counters(),
                Seq::<(int, int, Map<(Seq<char>, Seq<char>), Seq<char>>)>::empty(),
            ),
            facts_mergeable(facts@, m, others@, *eq, *as_vec),
            forall|x: Seq<char>| #[trigger] counter_of(c0, x) + facts_binding_count(facts@) < usize::MAX,
            strings_view(matched@).no_duplicates(),
            forall|x: Seq<char>|
                #[trigger] counter_of(combined.counters(), x) <= counter_of(c0, x)
                    + facts_binding_count(facts@.subrange(0, i as int)),
            ({
                let fs = facts_fold(st0, facts@, i as int, m, others@, *eq, *as_vec);
                &&& name_set(matched@) == fs.0
                &&& combined.names() == fs.1
                &&& combined.counters() == fs.2
                &&& out@.len() == fs.3.len()
                &&& forall|k: int|
                    0 <= k < out@.len() ==> fact_merged(
                        facts@[fs.3[k].0],
                        others@[fs.3[k].1],
                        #[trigger] out@[k],
                        fs.3[k].2,
                    )
            }),
        decreases facts.len() - i,
    {
        let f = &facts[i];
        let ghost prev = facts_fold(st0, facts@, i as int, m, others@, *eq, *as_vec);
        proof {
            assert(facts@.subrange(0, i + 1).drop_last() =~= facts@.subrange(0, i as int));
            assert(facts@.subrange(0, i + 1).last() == facts@[i as int]);
            lemma_facts_binding_count_prefix(facts@, i + 1);
        }
        match map_fact_bindings(f, binding_map) {
            Some(fm) => {
                match find_partner(f, &fm, binding_map, others, eq, as_vec) {
                    Some(j) => {
                        let f2 = &others[j];
                        assert(fact_match(*f, m, others@, *eq, *as_vec) == Some(j as int));
                        assert(items_mergeable(f.pattern.value, f2.pattern.value));
                        proof {
                            lemma_first_partner_found(
                                *f,
                                m,
                                others@,
                                others@.len() as int,
                                *eq,
                                *as_vec,
                            );
                        }
                        let ghost pairs = fact_pairs(f.pattern, f2.pattern);
                        proof {
                            lemma_fact_pairs_len(f.pattern, f2.pattern);
                            assert forall|x: Seq<char>|
                                #[trigger] counter_of(combined.counters(), x) + pairs.len()
                                    < usize::MAX by {
                                assert(counter_of(c0, x) + facts_binding_count(facts@) < usize::MAX);
                            }
                            lemma_can_name_pairs(combined.names(), combined.counters(), pairs);
                            assert forall|x: Seq<char>|
                                #[trigger] counter_of(
                                    naming_after(combined.names(), combined.counters(), pairs).1,
                                    x,
                                ) <= counter_of(c0, x) + facts_binding_count(
                                    facts@.subrange(0, i + 1),
                                ) by {
                                lemma_naming_after_counters(
                                    combined.names(),
                                    combined.counters(),
                                    pairs,
                                    x,
                                );
                            }
                            lemma_renamed_fact_bindings(*f, fm, m);
                        }
                        let names = get_fact_binding_set(&fm);
                        let mut k: usize = 0;
                        let ghost start = name_set(matched@);
                        while k < names.len()
                            invariant
                                k <= names.len(),
                                strings_view(matched@).no_duplicates(),
                                name_set(matched@) == start + strings_view(
                                    names@.subrange(0, k as int),
                                ).to_set(),
                            decreases names.len() - k,
                        {
                            let ghost before = name_set(matched@);
                            insert_name(matched, &names[k]);
                            assert(strings_view(names@.subrange(0, k + 1)) =~= strings_view(
                                names@.subrange(0, k as int),
                            ).push(names@[k as int]@));
                            assert(name_set(matched@) =~= start + strings_view(
                                names@.subrange(0, k + 1),
                            ).to_set()) by {
                                strings_view(names@.subrange(0, k as int)).lemma_push_to_set_commute(
                                    names@[k as int]@,
                                );
                            }
                            k = k + 1;
                        }
                        assert(names@.subrange(0, k as int) =~= names@);
                        assert(name_set(matched@) =~= prev.0.union(
                            renamed_names(crate::types::mk_val_bindings(f.pattern), m),
                        ));
                        let merged = merge_facts(f, f2, combined);
                        out.push(merged);
                    },
                    None => {
                        assert(fact_match(*f, m, others@, *eq, *as_vec) is None);
                    },
                }
            },
            None => {
                assert(fact_match(*f, m, others@, *eq, *as_vec) is None);
            },
        }
        i = i + 1;
    }
    out
}

/// The binding map after merging the entities of two composite states,
/// starting from `bm0`.
pub open spec fn merged_entities_map<V: Clone>(
    cst: Cst<V>,
    other_cst: Cst<V>,
    bm0: Map<Seq<char>, String>,
) -> Map<Seq<char>, String> {
    entities_fold(
        (bm0, Set::empty(), Map::empty(), Map::empty(), seq![]),
        cst.entities@,
        other_cst.entities@,
    ).0
}

/// Compares the effects of two pairs of a requirement model and a causal
/// model, over their composite states: the causal models must match, the
/// requirement models must give a binding map, and the bindings found in
/// both states must be exactly the bindings that map maps to. The result is
/// a composite state with the first state's id, the entities found in both
/// (a mapped binding counts only where the other state declares it with
/// the same class) and the facts that match, merged under fresh binding
/// names.
pub fn compare_model_effects<
    V: Clone,
    C,
    E: Fn(&V, &V) -> bool,
    A: Fn(&V) -> Option<Vec<V>>,
>(
    cst: &Cst<V>,
    req_model: &Mdl<V, C>,
    casual_model: &Mdl<V, C>,
    other_cst: &Cst<V>,
    other_req_model: &Mdl<V, C>,
    other_causal_model: &Mdl<V, C>,
    eq: &E,
    as_vec: &A,
) -> (r: Option<Cst<V>>)
    requires
        eq_answers(*eq),
        as_vec_reads(*as_vec),
        clones_equal::<V>(),
        cst.entities@.len() + facts_binding_count(cst.facts@) < usize::MAX,
        casual_models_answer(*casual_model, *other_causal_model, *eq, *as_vec, true) && req_binding_map(
            *req_model,
            *other_req_model,
            *eq,
        ) is Some ==> facts_mergeable(
            cst.facts@,
            merged_entities_map(
                *cst,
                *other_cst,
                req_binding_map(*req_model, *other_req_model, *eq)->Some_0,
            ),
            other_cst.facts@,
            *eq,
            *as_vec,
        ),
    ensures
        match r {
            Some(c) => {
                let o = model_effects_outcome(
                    *cst,
                    *req_model,
                    *other_cst,
                    *other_req_model,
                    *eq,
                    *as_vec,
                );
                &&& casual_models_answer(*casual_model, *other_causal_model, *eq, *as_vec, true)
                &&& o is Some
                &&& c.cst_id@ == cst.cst_id@
                &&& decl_views(c.entities@) == o->Some_0.0
                &&& c.facts@.len() == o->Some_0.1.len()
                &&& forall|k: int|
                    0 <= k < c.facts@.len() ==> fact_merged(
                        cst.facts@[o->Some_0.1[k].0],
                        other_cst.facts@[o->Some_0.1[k].1],
                        #[trigger] c.facts@[k],
                        o->Some_0.1[k].2,
                    )
            },
            None => casual_models_answer(*casual_model, *other_causal_model, *eq, *as_vec, false)
                || model_effects_outcome(*cst, *req_model, *other_cst, *other_req_model, *eq, *as_vec)
                is None,
        },
{
    if !compare_casual_models(casual_model, other_causal_model, eq, as_vec) {
        return None;
    }
    let (imdl1, imdl2) = match (&req_model.right.pattern, &other_req_model.right.pattern) {
        (MdlRightValue::IMdl(imdl1), MdlRightValue::IMdl(imdl2)) => (imdl1, imdl2),
        _ => {
            return None;
        },
    };
    if imdl1.params.len() != imdl2.params.len() {
        return None;
    }
    let mut binding_map: StrMap<String> = StrMap::new();
    if !construct_binding_map(imdl1, imdl2, &mut binding_map, eq) {
        return None;
    }
    let ghost bm0 = binding_map@;
    assert(req_binding_map(*req_model, *other_req_model, *eq) == Some(bm0));
    let expected = value_name_set(&binding_map);
    let mut matched: Vec<String> = Vec::new();
    let mut combined = CombinedCstBindingMap::new();
    assert(name_set(matched@) =~= Set::<Seq<char>>::empty());
    assert(strings_view(matched@) =~= Seq::<Seq<char>>::empty());
    let entities = merge_entities(
        &cst.entities,
        &other_cst.entities,
        &mut binding_map,
        &mut matched,
        &mut combined,
    );
    let ghost es = entities_fold(
        (bm0, Set::empty(), Map::empty(), Map::empty(), seq![]),
        cst.entities@,
        other_cst.entities@,
    );
    assert(binding_map@ == es.0);
    assert forall|x: Seq<char>|
        #[trigger] counter_of(combined.counters(), x) + facts_binding_count(cst.facts@)
            < usize::MAX by {
        assert(counter_of(Map::<Seq<char>, usize>::empty(), x) == 0);
    }
    let facts = merge_matching_facts(
        &cst.facts,
        &other_cst.facts,
        &binding_map,
        &mut matched,
        &mut combined,
        eq,
        as_vec,
    );
    if !same_names(&matched, &expected) {
        return None;
    }
    Some(Cst { cst_id: cst.cst_id.clone(), facts, entities })
}

/// The causal models act by commands of the same name and predict the same
/// variable, and the requirement models instantiate models with as many
/// parameters.
pub open spec fn quick_models_match<V: Clone, C>(
    req_model1: Mdl<V, C>,
    casual_model1: Mdl<V, C>,
    req_model2: Mdl<V, C>,
    casual_model2: Mdl<V, C>,
) -> bool {
    &&& match (casual_model1.left.pattern, casual_model2.left.pattern) {
        (MdlLeftValue::Command(c1), MdlLeftValue::Command(c2)) => c1.name@ == c2.name@,
        _ => false,
    }
    &&& match (casual_model1.right.pattern, casual_model2.right.pattern) {
        (MdlRightValue::MkVal(m1), MdlRightValue::MkVal(m2)) => m1.var_name@ == m2.var_name@,
        _ => false,
    }
    &&& match (req_model1.right.pattern, req_model2.right.pattern) {
        (MdlRightValue::IMdl(i1), MdlRightValue::IMdl(i2)) => i1.params@.len() == i2.params@.len(),
        _ => false,
    }
}

/// A cheap first test of whether two pairs of a requirement model and a
/// causal model can describe the same effect: commands of the same name,
/// predictions of the same variable, and instantiated models with as many
/// parameters.
pub fn quick_compare_models<V: Clone, C>(
    req_model1: &Mdl<V, C>,
    casual_model1: &Mdl<V, C>,
    req_model2: &Mdl<V, C>,
    casual_model2: &Mdl<V, C>,
) -> (r: bool)
    ensures
        r == quick_models_match(*req_model1, *casual_model1, *req_model2, *casual_model2),
{
    let lhs_cmd_matches = match (&casual_model1.left.pattern, &casual_model2.left.pattern) {
        (MdlLeftValue::Command(cmd1), MdlLeftValue::Command(cmd2)) => cmd1.name == cmd2.name,
        _ => false,
    };
    let rhs_var_matches = match (&casual_model1.right.pattern, &casual_model2.right.pattern) {
        (MdlRightValue::MkVal(mk_val1), MdlRightValue::MkVal(mk_val2)) => mk_val1.var_name
            == mk_val2.var_name,
        _ => false,
    };
    let imdl_param_count_matches = match (&req_model1.right.pattern, &req_model2.right.pattern) {
        (MdlRightValue::IMdl(imdl1), MdlRightValue::IMdl(imdl2)) => imdl1.params.len()
            == imdl2.params.len(),
        _ => false,
    };
    lhs_cmd_matches && rhs_var_matches && imdl_param_count_matches
}

} // verus!
