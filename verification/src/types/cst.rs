//! Composite states: facts about entities declared by binding and class,
//! and the parameters under which they are instantiated.

use vstd::prelude::*;
use crate::str_map::StrMap;
use crate::strings::{lemma_unique_seq, unique_seq, unique_strings};
use crate::types::pattern::{
    clone_items, filled_copy, item_bindings, item_cloned, item_filled_copy, item_substituted,
    items_cloned, lemma_cloned_item_bindings, strings_view, PatternItem, item_same_names,
    lemma_substituted_own_names,
};
use crate::types::{mk_val_cloned, EntityDeclaration, EntityPatternValue, Fact, MkVal};

verus! {

/// A composite state: facts whose entities are declared by binding.
#[derive(Debug, PartialEq)]
pub struct Cst<V: Clone> {
    pub cst_id: String,
    pub facts: Vec<Fact<MkVal<V>>>,
    pub entities: Vec<EntityDeclaration>,
}

/// The bindings of the declared entities, in order.
pub open spec fn declared_bindings(s: Seq<EntityDeclaration>) -> Seq<Seq<char>> {
    s.map_values(|e: EntityDeclaration| e.binding@)
}

/// The bindings of the value patterns of the facts, fact after fact.
pub open spec fn fact_value_bindings<V: Clone>(s: Seq<Fact<MkVal<V>>>) -> Seq<Seq<char>>
    decreases s.len(),
{
    if s.len() == 0 {
        seq![]
    } else {
        fact_value_bindings(s.drop_last()) + item_bindings(s.last().pattern.value)
    }
}

/// The parameters of a composite state: the bindings of its entities, then
/// those of its facts' values, each once, where it first occurs.
pub open spec fn cst_binding_params<V: Clone>(c: Cst<V>) -> Seq<Seq<char>> {
    unique_seq(declared_bindings(c.entities@) + fact_value_bindings(c.facts@))
}

/// A fact of a composite state with values filled in: the same variable,
/// time range and assumption flag, a copy of the value with the bound
/// bindings filled in, and an entity binding that is bound replaced by the
/// entity that `entity_id_of` reads from its value.
pub open spec fn fact_filled<V: Clone, F: Fn(&V) -> String>(
    f: Fact<MkVal<V>>,
    r: Fact<MkVal<V>>,
    m: Map<Seq<char>, V>,
    entity_id_of: F,
) -> bool {
    &&& r.time_range == f.time_range
    &&& r.pattern.var_name == f.pattern.var_name
    &&& r.pattern.assumption == f.pattern.assumption
    &&& item_filled_copy(f.pattern.value, r.pattern.value, m)
    &&& match f.pattern.entity_id {
        EntityPatternValue::Binding(b) => if m.contains_key(b@) {
            r.pattern.entity_id is EntityId && entity_id_of.ensures(
                (&m[b@],),
                r.pattern.entity_id->EntityId_0,
            )
        } else {
            r.pattern.entity_id == f.pattern.entity_id
        },
        EntityPatternValue::EntityId(_) => r.pattern.entity_id == f.pattern.entity_id,
    }
}

/// `b` copies the composite state `a`: the same id and declarations, and
/// each fact copied.
pub open spec fn cst_cloned<V: Clone>(a: Cst<V>, b: Cst<V>) -> bool {
    &&& b.cst_id == a.cst_id
    &&& b.entities@ == a.entities@
    &&& b.facts@.len() == a.facts@.len()
    &&& forall|i: int|
        0 <= i < a.facts@.len() ==> {
            &&& (#[trigger] b.facts@[i]).time_range == a.facts@[i].time_range
            &&& mk_val_cloned(a.facts@[i].pattern, b.facts@[i].pattern)
        }
}

/// Copied facts have the same value bindings.
proof fn lemma_cloned_fact_value_bindings<V: Clone>(s: Seq<Fact<MkVal<V>>>, t: Seq<Fact<MkVal<V>>>)
    requires
        s.len() == t.len(),
        forall|i: int| 0 <= i < s.len() ==> mk_val_cloned(#[trigger] s[i].pattern, t[i].pattern),
    ensures
        fact_value_bindings(s) == fact_value_bindings(t),
    decreases s.len(),
{
    if s.len() > 0 {
        lemma_cloned_fact_value_bindings(s.drop_last(), t.drop_last());
        assert(mk_val_cloned(s[s.len() - 1].pattern, t[t.len() - 1].pattern));
        lemma_cloned_item_bindings(s.last().pattern.value, t.last().pattern.value);
    }
}

impl<V: Clone> Clone for Cst<V> {
    fn clone(&self) -> (r: Self)
        ensures
            cst_cloned(*self, r),
            cst_binding_params(r) == cst_binding_params(*self),
    {
        let mut facts: Vec<Fact<MkVal<V>>> = Vec::new();
        let mut i: usize = 0;
        while i < self.facts.len()
            invariant
                i <= self.facts.len(),
                facts@.len() == i,
                forall|j: int|
                    0 <= j < i ==> {
                        &&& (#[trigger] facts@[j]).time_range == self.facts@[j].time_range
                        &&& mk_val_cloned(self.facts@[j].pattern, facts@[j].pattern)
                    },
            decreases self.facts.len() - i,
        {
            let f = Fact {
                pattern: self.facts[i].pattern.clone(),
                time_range: self.facts[i].time_range.clone(),
            };
            facts.push(f);
            i = i + 1;
        }
        let mut entities: Vec<EntityDeclaration> = Vec::new();
        let mut k: usize = 0;
        while k < self.entities.len()
            invariant
                k <= self.entities.len(),
                entities@ == self.entities@.take(k as int),
            decreases self.entities.len() - k,
        {
            let e = &self.entities[k];
            entities.push(EntityDeclaration { binding: e.binding.clone(), class: e.class.clone() });
            assert(entities@ =~= self.entities@.take(k + 1));
            k = k + 1;
        }
        assert(entities@ =~= self.entities@);
        let r = Cst { cst_id: self.cst_id.clone(), facts, entities };
        proof {
            lemma_cloned_fact_value_bindings(self.facts@, r.facts@);
        }
        r
    }
}

/// Copies of the facts with the bound values filled in: a bound entity
/// becomes the entity that `entity_id_of` reads from its value.
pub(crate) fn filled_facts<V: Clone, F: Fn(&V) -> String>(
    facts_in: &Vec<Fact<MkVal<V>>>,
    bindings: &StrMap<V>,
    entity_id_of: &F,
) -> (r: Vec<Fact<MkVal<V>>>)
    requires
        forall|i: int|
            0 <= i < facts_in@.len() && (#[trigger] facts_in@[i]).pattern.entity_id is Binding
                && bindings@.contains_key(facts_in@[i].pattern.entity_id->Binding_0@)
                ==> entity_id_of.requires((&bindings@[facts_in@[i].pattern.entity_id->Binding_0@],)),
    ensures
        r@.len() == facts_in@.len(),
        forall|i: int|
            0 <= i < r@.len() ==> fact_filled(#[trigger] facts_in@[i], r@[i], bindings@, *entity_id_of),
{
        let mut facts: Vec<Fact<MkVal<V>>> = Vec::new();
        let mut i: usize = 0;
        while i < facts_in.len()
            invariant
                i <= facts_in.len(),
                facts@.len() == i,
                forall|j: int|
                    0 <= j < facts_in@.len() && (#[trigger] facts_in@[j]).pattern.entity_id is Binding
                        && bindings@.contains_key(facts_in@[j].pattern.entity_id->Binding_0@)
                        ==> entity_id_of.requires(
                        (&bindings@[facts_in@[j].pattern.entity_id->Binding_0@],),
                    ),
                forall|j: int|
                    0 <= j < i ==> fact_filled(
                        #[trigger] facts_in@[j],
                        facts@[j],
                        bindings@,
                        *entity_id_of,
                    ),
            decreases facts_in.len() - i,
        {
            let fact = &facts_in[i];
            let value = filled_copy(&fact.pattern.value, bindings);
            let entity_id = match &fact.pattern.entity_id {
                EntityPatternValue::Binding(b) => match bindings.get(b) {
                    Some(v) => EntityPatternValue::EntityId(entity_id_of(v)),
                    None => EntityPatternValue::Binding(b.clone()),
                },
                EntityPatternValue::EntityId(id) => EntityPatternValue::EntityId(id.clone()),
            };
            facts.push(
                fact.with_pattern(
                    MkVal {
                        entity_id,
                        var_name: fact.pattern.var_name.clone(),
                        value,
                        assumption: fact.pattern.assumption,
                    },
                ),
            );
            i = i + 1;
        }
        facts
}

impl<V: Clone> Cst<V> {
    /// A copy of the state with the bound values filled into its facts: a
    /// bound entity becomes the entity that `entity_id_of` reads from its
    /// value. The declarations are kept.
    pub fn fill_in_bindings<F: Fn(&V) -> String>(&self, bindings: &StrMap<V>, entity_id_of: F) -> (r: Cst<V>)
        requires
            forall|i: int|
                0 <= i < self.facts@.len() && (#[trigger] self.facts@[i]).pattern.entity_id is Binding
                    && bindings@.contains_key(self.facts@[i].pattern.entity_id->Binding_0@)
                    ==> entity_id_of.requires(
                    (&bindings@[self.facts@[i].pattern.entity_id->Binding_0@],),
                ),
        ensures
            r.cst_id == self.cst_id,
            r.facts@.len() == self.facts@.len(),
            forall|i: int|
                0 <= i < r.facts@.len() ==> fact_filled(
                    #[trigger] self.facts@[i],
                    r.facts@[i],
                    bindings@,
                    entity_id_of,
                ),
            decl_views(r.entities@) == decl_views(self.entities@),
    {
        let facts = filled_facts(&self.facts, bindings, &entity_id_of);
        let mut entities: Vec<EntityDeclaration> = Vec::new();
        let mut j: usize = 0;
        while j < self.entities.len()
            invariant
                j <= self.entities.len(),
                decl_views(entities@) == decl_views(self.entities@.subrange(0, j as int)),
            decreases self.entities.len() - j,
        {
            let ghost before = decl_views(entities@);
            let e = &self.entities[j];
            entities.push(EntityDeclaration { binding: e.binding.clone(), class: e.class.clone() });
            assert(decl_views(entities@) =~= before.push((e.binding@, e.class@)));
            assert(decl_views(self.entities@.subrange(0, j + 1)) =~= decl_views(
                self.entities@.subrange(0, j as int),
            ).push((e.binding@, e.class@)));
            j = j + 1;
        }
        assert(self.entities@.subrange(0, j as int) =~= self.entities@);
        Cst { cst_id: self.cst_id.clone(), facts, entities }
    }

    /// An empty composite state.
    pub fn new(cst_id: String) -> (c: Cst<V>)
        ensures
            c.cst_id == cst_id,
            c.facts@ == Seq::<Fact<MkVal<V>>>::empty(),
            c.entities@ == Seq::<EntityDeclaration>::empty(),
    {
        Cst { cst_id, facts: Vec::new(), entities: Vec::new() }
    }

    /// The parameters under which the state is instantiated: the bindings
    /// of the entities, then those of the facts' values, each once.
    pub fn binding_params(&self) -> (r: Vec<String>)
        ensures
            strings_view(r@) == cst_binding_params(*self),
            strings_view(r@).no_duplicates(),
            forall|b: Seq<char>|
                #[trigger] strings_view(r@).contains(b) <==> (declared_bindings(
                    self.entities@,
                ).contains(b) || fact_value_bindings(self.facts@).contains(b)),
    {
        let mut all: Vec<String> = Vec::new();
        let mut i: usize = 0;
        while i < self.entities.len()
            invariant
                i <= self.entities.len(),
                strings_view(all@) == declared_bindings(self.entities@.subrange(0, i as int)),
            decreases self.entities.len() - i,
        {
            let ghost before = strings_view(all@);
            all.push(self.entities[i].binding.clone());
            assert(strings_view(all@) =~= before.push(self.entities@[i as int].binding@));
            assert(strings_view(all@) =~= declared_bindings(self.entities@.subrange(0, i + 1)));
            i = i + 1;
        }
        assert(self.entities@.subrange(0, i as int) =~= self.entities@);
        let ghost decl = strings_view(all@);
        let mut j: usize = 0;
        assert(fact_value_bindings(self.facts@.subrange(0, 0)) =~= Seq::<Seq<char>>::empty());
        assert(strings_view(all@) =~= decl + fact_value_bindings(self.facts@.subrange(0, 0)));
        while j < self.facts.len()
            invariant
                j <= self.facts.len(),
                decl == declared_bindings(self.entities@),
                strings_view(all@) == decl + fact_value_bindings(self.facts@.subrange(0, j as int)),
            decreases self.facts.len() - j,
        {
            let mut b = self.facts[j].pattern.value.get_bindings();
            let ghost before = strings_view(all@);
            let ghost added = strings_view(b@);
            all.append(&mut b);
            assert(self.facts@.subrange(0, j + 1).drop_last() =~= self.facts@.subrange(0, j as int));
            assert(strings_view(all@) =~= before + added);
            assert(strings_view(all@) =~= decl + fact_value_bindings(self.facts@.subrange(0, j + 1)));
            j = j + 1;
        }
        assert(self.facts@.subrange(0, j as int) =~= self.facts@);
        let r = unique_strings(&all);
        proof {
            let all_names = decl + fact_value_bindings(self.facts@);
            lemma_unique_seq(all_names);
            assert forall|b: Seq<char>| all_names.contains(b) <==> (decl.contains(b)
                || fact_value_bindings(self.facts@).contains(b)) by {
                let f = fact_value_bindings(self.facts@);
                if all_names.contains(b) {
                    let k = choose|k: int| 0 <= k < all_names.len() && all_names[k] == b;
                    if k < decl.len() {
                        assert(decl[k] == b);
                    } else {
                        assert(f[k - decl.len()] == b);
                    }
                }
                if decl.contains(b) {
                    let k = choose|k: int| 0 <= k < decl.len() && decl[k] == b;
                    assert(all_names[k] == b);
                }
                if f.contains(b) {
                    let k = choose|k: int| 0 <= k < f.len() && f[k] == b;
                    assert(all_names[decl.len() + k] == b);
                }
            }
        }
        r
    }
}

/// An instantiation of a composite state with a pattern for its parameters.
#[derive(Debug, PartialEq)]
pub struct ICst<V> {
    pub cst_id: String,
    pub params: Vec<PatternItem<V>>,
}

impl<V: Clone> Clone for ICst<V> {
    fn clone(&self) -> (r: Self)
        ensures
            r.cst_id == self.cst_id,
            items_cloned(self.params@, r.params@),
    {
        ICst { cst_id: self.cst_id.clone(), params: clone_items(&self.params) }
    }
}

/// How many parameters an instantiation gives: as many as there are both
/// names and parameters.
pub open spec fn bound_count(names: nat, params: nat) -> int {
    if names <= params {
        names as int
    } else {
        params as int
    }
}

/// `m` binds each name to a copy of the parameter in the same place, as far
/// as both go, and binds nothing else.
pub open spec fn params_bound<V: Clone>(
    m: Map<Seq<char>, PatternItem<V>>,
    names: Seq<Seq<char>>,
    params: Seq<PatternItem<V>>,
) -> bool {
    &&& forall|k: Seq<char>|
        #[trigger] m.contains_key(k) <==> exists|i: int|
            0 <= i < bound_count(names.len(), params.len()) && names[i] == k
    &&& forall|i: int|
        0 <= i < bound_count(names.len(), params.len()) ==> item_cloned(
            params[i],
            m[#[trigger] names[i]],
        )
}

/// The name is among the names that an instantiation gives a parameter.
pub open spec fn is_bound_name(name: Seq<char>, names: Seq<Seq<char>>, params: nat) -> bool {
    exists|i: int| 0 <= i < bound_count(names.len(), params) && names[i] == name
}

/// The entity of an expanded fact: a binding bound to a binding is renamed,
/// a binding bound to a value is the entity that `entity_id_of` reads from
/// the value, if it reads one; everything else stays.
pub open spec fn entity_expanded<V, F: Fn(&V) -> Option<String>>(
    e: EntityPatternValue,
    r: EntityPatternValue,
    m: Map<Seq<char>, PatternItem<V>>,
    entity_id_of: F,
) -> bool {
    match e {
        EntityPatternValue::Binding(name) => match m[name@] {
            PatternItem::Binding(b) => r is Binding && r->Binding_0@ == b@,
            PatternItem::Value(v) => {
                ||| r is EntityId && entity_id_of.ensures((&v,), Some(r->EntityId_0))
                ||| r == e && entity_id_of.ensures((&v,), None::<String>)
            },
            _ => r == e,
        },
        EntityPatternValue::EntityId(_) => r == e,
    }
}

/// A fact of an expanded composite state: the same variable, time range and
/// assumption flag, the value with the parameters substituted, the entity
/// expanded.
pub open spec fn fact_expanded<V: Clone, F: Fn(&V) -> Option<String>>(
    f: Fact<MkVal<V>>,
    r: Fact<MkVal<V>>,
    m: Map<Seq<char>, PatternItem<V>>,
    entity_id_of: F,
) -> bool {
    &&& r.time_range == f.time_range
    &&& r.pattern.var_name == f.pattern.var_name
    &&& r.pattern.assumption == f.pattern.assumption
    &&& item_substituted(f.pattern.value, r.pattern.value, m)
    &&& entity_expanded(f.pattern.entity_id, r.pattern.entity_id, m, entity_id_of)
}

/// The declarations that survive expansion, by binding and class: those
/// bound to a binding, renamed to it.
pub open spec fn expanded_decls<V>(
    s: Seq<EntityDeclaration>,
    m: Map<Seq<char>, PatternItem<V>>,
) -> Seq<(Seq<char>, Seq<char>)>
    decreases s.len(),
{
    if s.len() == 0 {
        seq![]
    } else {
        let prev = expanded_decls(s.drop_last(), m);
        match m[s.last().binding@] {
            PatternItem::Binding(b) => prev.push((b@, s.last().class@)),
            _ => prev,
        }
    }
}

/// The declarations by binding and class.
pub open spec fn decl_views(s: Seq<EntityDeclaration>) -> Seq<(Seq<char>, Seq<char>)> {
    s.map_values(|e: EntityDeclaration| (e.binding@, e.class@))
}

/// A fact the same up to how its names are held: the same time range,
/// variable and assumption flag, an entity binding of the same name or the
/// same entity, and a value the same.
pub open spec fn fact_same_names<V: Clone>(f: Fact<MkVal<V>>, g: Fact<MkVal<V>>) -> bool {
    &&& g.time_range == f.time_range
    &&& g.pattern.var_name == f.pattern.var_name
    &&& g.pattern.assumption == f.pattern.assumption
    &&& item_same_names(f.pattern.value, g.pattern.value)
    &&& match f.pattern.entity_id {
        EntityPatternValue::Binding(b) => g.pattern.entity_id is Binding && g.pattern.entity_id->Binding_0@
            == b@,
        EntityPatternValue::EntityId(_) => g.pattern.entity_id == f.pattern.entity_id,
    }
}

/// Declarations whose bindings `m` binds to bindings of their own names
/// survive expansion as they are.
proof fn lemma_expanded_decls_own_names<V>(s: Seq<EntityDeclaration>, m: Map<Seq<char>, PatternItem<V>>)
    requires
        forall|i: int| 0 <= i < s.len() ==> m.contains_key((#[trigger] s[i]).binding@),
        forall|k: Seq<char>| #[trigger] m.contains_key(k) ==> m[k] is Binding && m[k]->Binding_0@ == k,
    ensures
        expanded_decls(s, m) == decl_views(s),
    decreases s.len(),
{
    if s.len() > 0 {
        assert forall|i: int| 0 <= i < s.drop_last().len() implies m.contains_key(
            (#[trigger] s.drop_last()[i]).binding@,
        ) by {
            assert(s.drop_last()[i] == s[i]);
        }
        lemma_expanded_decls_own_names(s.drop_last(), m);
        assert(m.contains_key(s.last().binding@));
        assert(decl_views(s) =~= decl_views(s.drop_last()).push((s.last().binding@, s.last().class@)));
    } else {
        assert(decl_views(s) =~= Seq::<(Seq<char>, Seq<char>)>::empty());
    }
}

/// Instantiating a composite state with its own binding names as the
/// parameters gives the state back: each fact the same up to how its names
/// are held, and the same declarations. `m`, `r` are what `expand_cst`
/// promises for such parameters.
pub proof fn lemma_expand_with_own_names<V: Clone, F: Fn(&V) -> Option<String>>(
    cst: Cst<V>,
    params: Seq<PatternItem<V>>,
    m: Map<Seq<char>, PatternItem<V>>,
    r: Cst<V>,
    entity_id_of: F,
)
    requires
        params.len() == cst_binding_params(cst).len(),
        forall|i: int|
            0 <= i < params.len() ==> (#[trigger] params[i]) is Binding && params[i]->Binding_0@
                == cst_binding_params(cst)[i],
        forall|i: int|
            0 <= i < cst.facts@.len() && (#[trigger] cst.facts@[i]).pattern.entity_id is Binding
                ==> cst_binding_params(cst).contains(cst.facts@[i].pattern.entity_id->Binding_0@),
        forall|i: int|
            0 <= i < cst.entities@.len() ==> cst_binding_params(cst).contains(
                (#[trigger] cst.entities@[i]).binding@,
            ),
        params_bound(m, cst_binding_params(cst), params),
        r.facts@.len() == cst.facts@.len(),
        forall|i: int|
            0 <= i < r.facts@.len() ==> fact_expanded(#[trigger] cst.facts@[i], r.facts@[i], m, entity_id_of),
        decl_views(r.entities@) == expanded_decls(cst.entities@, m),
    ensures
        forall|i: int| 0 <= i < r.facts@.len() ==> fact_same_names(#[trigger] cst.facts@[i], r.facts@[i]),
        decl_views(r.entities@) == decl_views(cst.entities@),
{
    let names = cst_binding_params(cst);
    assert(bound_count(names.len(), params.len()) == names.len());
    assert forall|k: Seq<char>| #[trigger] m.contains_key(k) implies m[k] is Binding && m[k]->Binding_0@ == k by {
        let i = choose|i: int| 0 <= i < bound_count(names.len(), params.len()) && names[i] == k;
        assert(item_cloned(params[i], m[names[i]]));
    }
    assert forall|k: Seq<char>| names.contains(k) implies #[trigger] m.contains_key(k) by {
        let i = choose|i: int| 0 <= i < names.len() && names[i] == k;
        assert(0 <= i < bound_count(names.len(), params.len()) && names[i] == k);
    }
    assert forall|i: int| 0 <= i < r.facts@.len() implies fact_same_names(#[trigger] cst.facts@[i], r.facts@[i]) by {
        let f = cst.facts@[i];
        assert(fact_expanded(f, r.facts@[i], m, entity_id_of));
        lemma_substituted_own_names(f.pattern.value, r.facts@[i].pattern.value, m);
        if f.pattern.entity_id is Binding {
            assert(names.contains(f.pattern.entity_id->Binding_0@));
            assert(m.contains_key(f.pattern.entity_id->Binding_0@));
        }
    }
    assert forall|i: int| 0 <= i < cst.entities@.len() implies m.contains_key((#[trigger] cst.entities@[i]).binding@) by {
        assert(names.contains(cst.entities@[i].binding@));
    }
    lemma_expanded_decls_own_names(cst.entities@, m);
}

impl<V: Clone> ICst<V> {
    /// Instantiates `cst`, the composite state this refers to, with the
    /// parameters: each binding of the state is replaced by the parameter in
    /// its place, an entity bound to a binding is renamed, one bound to a
    /// value becomes the entity that `entity_id_of` reads from the value,
    /// and a declared entity bound to a value is dropped.
    pub fn expand_cst<F: Fn(&V) -> Option<String>>(&self, cst: Cst<V>, entity_id_of: F) -> (r: Cst<V>)
        requires
            forall|v: &V| entity_id_of.requires((v,)),
            forall|i: int|
                0 <= i < cst.facts@.len() && (#[trigger] cst.facts@[i]).pattern.entity_id is Binding
                    ==> is_bound_name(
                    cst.facts@[i].pattern.entity_id->Binding_0@,
                    cst_binding_params(cst),
                    self.params@.len(),
                ),
            forall|i: int|
                0 <= i < cst.entities@.len() ==> is_bound_name(
                    (#[trigger] cst.entities@[i]).binding@,
                    cst_binding_params(cst),
                    self.params@.len(),
                ),
            forall|i: int|
                0 <= i < bound_count(cst_binding_params(cst).len(), self.params@.len())
                    && declared_bindings(cst.entities@).contains(cst_binding_params(cst)[i]) ==> !(
                #[trigger] self.params@[i] is Any),
        ensures
            r.cst_id == cst.cst_id,
            exists|m: Map<Seq<char>, PatternItem<V>>|
                {
                    &&& params_bound(m, cst_binding_params(cst), self.params@)
                    &&& r.facts@.len() == cst.facts@.len()
                    &&& forall|i: int|
                        0 <= i < r.facts@.len() ==> fact_expanded(
                            #[trigger] cst.facts@[i],
                            r.facts@[i],
                            m,
                            entity_id_of,
                        )
                    &&& decl_views(r.entities@) == expanded_decls(cst.entities@, m)
                },
    {
        let names = cst.binding_params();
        let n: usize = if names.len() <= self.params.len() {
            names.len()
        } else {
            self.params.len()
        };
        let ghost nv = strings_view(names@);
        let mut map: StrMap<PatternItem<V>> = StrMap::new();
        let mut i: usize = 0;
        while i < n
            invariant
                i <= n,
                n == bound_count(nv.len(), self.params@.len()),
                nv == strings_view(names@),
                nv == cst_binding_params(cst),
                nv.no_duplicates(),
                forall|k: Seq<char>|
                    #[trigger] map@.contains_key(k) <==> exists|j: int| 0 <= j < i && nv[j] == k,
                forall|j: int| 0 <= j < i ==> item_cloned(self.params@[j], map@[#[trigger] nv[j]]),
            decreases n - i,
        {
            assert(nv[i as int] == names@[i as int]@);
            let ghost before = map@;
            map.insert(names[i].clone(), self.params[i].clone());
            assert forall|j: int| 0 <= j < i + 1 implies item_cloned(
                self.params@[j],
                map@[#[trigger] nv[j]],
            ) by {
                if j < i {
                    assert(nv[j] != nv[i as int]);
                }
            }
            assert forall|k: Seq<char>| #[trigger] map@.contains_key(k) <==> exists|j: int|
                0 <= j < i + 1 && nv[j] == k by {
                if k == nv[i as int] {
                    assert(0 <= i < i + 1 && nv[i as int] == k);
                }
                if before.contains_key(k) {
                    let j = choose|j: int| 0 <= j < i && nv[j] == k;
                    assert(0 <= j < i + 1 && nv[j] == k);
                }
            }
            i = i + 1;
        }
        let ghost m = map@;
        assert(params_bound(m, nv, self.params@));
        let cst_id = cst.cst_id;
        let ghost orig_facts = cst.facts@;
        let ghost orig_entities = cst.entities@;
        let mut rest = cst.facts;
        let mut facts: Vec<Fact<MkVal<V>>> = Vec::new();
        while rest.len() > 0
            invariant
                facts@.len() + rest@.len() == orig_facts.len(),
                rest@ == orig_facts.subrange(facts@.len() as int, orig_facts.len() as int),
                m == map@,
                params_bound(m, nv, self.params@),
                forall|v: &V| entity_id_of.requires((v,)),
                forall|j: int|
                    0 <= j < orig_facts.len() && (#[trigger] orig_facts[j]).pattern.entity_id is Binding
                        ==> is_bound_name(
                        orig_facts[j].pattern.entity_id->Binding_0@,
                        nv,
                        self.params@.len(),
                    ),
                forall|j: int|
                    0 <= j < facts@.len() ==> fact_expanded(
                        #[trigger] orig_facts[j],
                        facts@[j],
                        m,
                        entity_id_of,
                    ),
            decreases rest.len(),
        {
            let ghost k = facts@.len() as int;
            assert(rest@[0] == orig_facts[k]);
            let mut f = rest.remove(0);
            f.pattern.value.insert_pattern_binding_values(&map);
            let entity_id = match &f.pattern.entity_id {
                EntityPatternValue::Binding(name) => {
                    proof {
                        let j = choose|j: int|
                            0 <= j < bound_count(nv.len(), self.params@.len()) && nv[j]
                                == name@;
                        assert(m.contains_key(nv[j]));
                    }
                    match map.get(name) {
                        Some(PatternItem::Binding(b)) => EntityPatternValue::Binding(b.clone()),
                        Some(PatternItem::Value(v)) => match entity_id_of(v) {
                            Some(id) => EntityPatternValue::EntityId(id),
                            None => EntityPatternValue::Binding(name.clone()),
                        },
                        _ => EntityPatternValue::Binding(name.clone()),
                    }
                },
                EntityPatternValue::EntityId(id) => EntityPatternValue::EntityId(id.clone()),
            };
            f.pattern.entity_id = entity_id;
            facts.push(f);
            assert(rest@ =~= orig_facts.subrange(facts@.len() as int, orig_facts.len() as int));
        }
        let mut rest_decls = cst.entities;
        let mut entities: Vec<EntityDeclaration> = Vec::new();
        let ghost mut done: int = 0;
        assert(decl_views(entities@) =~= expanded_decls(orig_entities.subrange(0, 0), m));
        while rest_decls.len() > 0
            invariant
                0 <= done <= orig_entities.len(),
                rest_decls@ == orig_entities.subrange(done, orig_entities.len() as int),
                m == map@,
                params_bound(m, nv, self.params@),
                forall|j: int|
                    0 <= j < orig_entities.len() ==> is_bound_name(
                        (#[trigger] orig_entities[j]).binding@,
                        nv,
                        self.params@.len(),
                    ),
                forall|j: int|
                    0 <= j < bound_count(nv.len(), self.params@.len())
                        && declared_bindings(orig_entities).contains(nv[j]) ==> !(
                    #[trigger] self.params@[j] is Any),
                decl_views(entities@) == expanded_decls(orig_entities.subrange(0, done), m),
            decreases rest_decls.len(),
        {
            assert(rest_decls@[0] == orig_entities[done]);
            let e = rest_decls.remove(0);
            proof {
                let j = choose|j: int|
                    0 <= j < bound_count(nv.len(), self.params@.len()) && nv[j] == e.binding@;
                assert(m.contains_key(nv[j]));
                assert(declared_bindings(orig_entities)[done] == e.binding@);
                assert(declared_bindings(orig_entities).contains(nv[j]));
                assert(item_cloned(self.params@[j], m[nv[j]]));
                assert(orig_entities.subrange(0, done + 1).drop_last() =~= orig_entities.subrange(
                    0,
                    done,
                ));
            }
            let ghost before = decl_views(entities@);
            match map.get(&e.binding) {
                Some(PatternItem::Binding(name)) => {
                    entities.push(EntityDeclaration { binding: name.clone(), class: e.class });
                    assert(decl_views(entities@) =~= before.push((name@, e.class@)));
                },
                _ => {},
            }
            proof {
                done = done + 1;
            }
            assert(rest_decls@ =~= orig_entities.subrange(done, orig_entities.len() as int));
        }
        assert(orig_entities.subrange(0, done) =~= orig_entities);
        Cst { cst_id, facts, entities }
    }
}

/// A composite state together with values for some of its bindings.
pub struct BoundCst<V: Clone> {
    pub bindings: StrMap<V>,
    pub cst: Cst<V>,
}

impl<V: Clone> BoundCst<V> {
    /// The instantiation that would give this state: a parameter for each
    /// binding of the state, the bound value where there is one and a
    /// wildcard elsewhere.
    pub fn icst_for_cst(&self) -> (r: ICst<V>)
        ensures
            r.cst_id == self.cst.cst_id,
            r.params@.len() == cst_binding_params(self.cst).len(),
            forall|i: int|
                #![trigger r.params@[i]]
                0 <= i < r.params@.len() ==> {
                    let b = cst_binding_params(self.cst)[i];
                    if self.bindings@.contains_key(b) {
                        r.params@[i] is Value && cloned(
                            self.bindings@[b],
                            r.params@[i]->Value_0,
                        )
                    } else {
                        r.params@[i] is Any
                    }
                },
    {
        let binding_params = self.cst.binding_params();
        let mut params: Vec<PatternItem<V>> = Vec::new();
        let mut i: usize = 0;
        while i < binding_params.len()
            invariant
                i <= binding_params.len(),
                strings_view(binding_params@) == cst_binding_params(self.cst),
                params@.len() == i,
                forall|j: int|
                    #![trigger params@[j]]
                    0 <= j < i ==> {
                        let b = cst_binding_params(self.cst)[j];
                        if self.bindings@.contains_key(b) {
                            params@[j] is Value && cloned(
                                self.bindings@[b],
                                params@[j]->Value_0,
                            )
                        } else {
                            params@[j] is Any
                        }
                    },
            decreases binding_params.len() - i,
        {
            assert(strings_view(binding_params@)[i as int] == binding_params@[i as int]@);
            let p = match self.bindings.get(&binding_params[i]) {
                Some(v) => PatternItem::Value(v.clone()),
                None => PatternItem::Any,
            };
            params.push(p);
            i = i + 1;
        }
        ICst { cst_id: self.cst.cst_id.clone(), params }
    }
}

/// The entity that a binding of a composite state was instantiated with.
#[derive(Clone, Debug, PartialEq)]
pub struct InstantiatedCstEntityBinding {
    pub binding: String,
    pub entity_id: String,
}

impl InstantiatedCstEntityBinding {
    pub fn new(binding: String, entity_id: String) -> (b: Self)
        ensures
            b.binding == binding,
            b.entity_id == entity_id,
    {
        Self { binding, entity_id }
    }
}

} // verus!
