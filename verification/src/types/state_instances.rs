//! Instances of composite states in a state of the world: every way of
//! choosing an entity of its class for each declared entity, kept where the
//! state's variables make every fact hold.

use vstd::prelude::*;
use itertools::Itertools;
use crate::runtime::pattern_matching::{
    as_vec_reads, clones_equal, eq_answers, match_outcome, match_result,
    pattern_item_matches_value_with_bindings, PatternMatchResult,
};
use crate::str_map::{entries_map, KeyMap, StrMap};
use crate::types::cst::{cst_cloned, BoundCst, Cst};
use crate::types::runtime::{System, SystemState};
use crate::types::{EntityPatternValue, Fact, MkVal};

verus! {

/// `entity_value` is defined on every entity id and gives one value for it.
pub open spec fn entity_values_decided<V, G: Fn(&String) -> V>(entity_value: G) -> bool {
    &&& forall|e: &String| #[trigger] entity_value.requires((e,))
    &&& forall|e: &String, a: V, b: V|
        #[trigger] entity_value.ensures((e,), a) && #[trigger] entity_value.ensures((e,), b) ==> a
            == b
}

/// The value that `entity_value` gives the entity id `e`.
pub open spec fn value_for<V, G: Fn(&String) -> V>(entity_value: G, e: String) -> V {
    choose|v: V| entity_value.ensures((&e,), v)
}

/// For each declared entity, in order, whose class `classes` lists: the
/// choices of an entity of that class for its binding, as (binding, entity)
/// pairs.
pub open spec fn class_choices(
    decls: Seq<crate::types::EntityDeclaration>,
    classes: Map<Seq<char>, Vec<String>>,
) -> Seq<Seq<(String, String)>>
    decreases decls.len(),
{
    if decls.len() == 0 {
        seq![]
    } else {
        let prev = class_choices(decls.drop_last(), classes);
        let d = decls.last();
        if classes.contains_key(d.class@) {
            prev.push(classes[d.class@]@.map_values(|e: String| (d.binding, e)))
        } else {
            prev
        }
    }
}

/// Every way of choosing one item of each list, in lexicographic order with
/// the last list varying fastest; one empty choice for no lists.
pub open spec fn cartesian<T>(lists: Seq<Seq<T>>) -> Seq<Seq<T>>
    decreases lists.len(),
{
    if lists.len() == 0 {
        seq![Seq::empty()]
    } else {
        let prev = cartesian(lists.drop_last());
        let last = lists.last();
        prev.map_values(|p: Seq<T>| last.map_values(|x: T| p.push(x))).flatten()
    }
}

/// The bindings that a choice of entities gives: each binding the value of
/// its entity, a later choice for a binding overriding an earlier one.
pub open spec fn entity_map<V, G: Fn(&String) -> V>(
    pairs: Seq<(String, String)>,
    entity_value: G,
) -> Map<Seq<char>, V> {
    entries_map(pairs.map_values(|p: (String, String)| (p.0@, value_for(entity_value, p.1))))
}

/// The bindings of every choice of entities for the declared entities of
/// `cst`, in order.
pub open spec fn entity_binding_maps<V: Clone, G: Fn(&String) -> V>(
    cst: Cst<V>,
    classes: Map<Seq<char>, Vec<String>>,
    entity_value: G,
) -> Seq<Map<Seq<char>, V>> {
    cartesian(class_choices(cst.entities@, classes)).map_values(
        |c: Seq<(String, String)>| entity_map(c, entity_value),
    )
}

/// `id_of` reads an entity id from every value, and one id from each.
pub open spec fn ids_decided<V, F: Fn(&V) -> String>(id_of: F) -> bool {
    &&& forall|v: &V| #[trigger] id_of.requires((v,))
    &&& forall|v: &V, a: String, b: String|
        #[trigger] id_of.ensures((v,), a) && #[trigger] id_of.ensures((v,), b) ==> a@ == b@
}

/// The entity id that `id_of` reads from `v`.
pub open spec fn id_read<V, F: Fn(&V) -> String>(id_of: F, v: V) -> Seq<char> {
    (choose|s: String| id_of.ensures((&v,), s))@
}

/// The key of the variable that a fact speaks of, under the bindings `m`:
/// its entity's id, read from the entity's bound value where the entity is
/// a binding, and the variable's name; none for an unbound entity.
pub open spec fn fact_key<V, F: Fn(&V) -> String>(
    f: MkVal<V>,
    m: Map<Seq<char>, V>,
    id_of: F,
) -> Option<(Seq<char>, Seq<char>)> {
    match f.entity_id {
        EntityPatternValue::Binding(b) => if m.contains_key(b@) {
            Some((id_read(id_of, m[b@]), f.var_name@))
        } else {
            None
        },
        EntityPatternValue::EntityId(id) => Some((id@, f.var_name@)),
    }
}

/// The bindings after checking the facts in order against the state's
/// variables, starting from `m`: each fact's variable must be held, and
/// its value must match the fact's value pattern under the bindings so
/// far, which the match extends; none where one fact fails.
pub open spec fn facts_bound<
    V: Clone,
    F: Fn(&V) -> String,
    E: Fn(&V, &V) -> bool,
    A: Fn(&V) -> Option<Vec<V>>,
>(
    facts: Seq<Fact<MkVal<V>>>,
    variables: Map<(Seq<char>, Seq<char>), V>,
    m: Map<Seq<char>, V>,
    id_of: F,
    eq: E,
    as_vec: A,
) -> Option<Map<Seq<char>, V>>
    decreases facts.len(),
{
    if facts.len() == 0 {
        Some(m)
    } else {
        match facts_bound(facts.drop_last(), variables, m, id_of, eq, as_vec) {
            None => None,
            Some(m1) => match fact_key(facts.last().pattern, m1, id_of) {
                None => None,
                Some(k) => if variables.contains_key(k) {
                    match_result(facts.last().pattern.value, variables[k], m1, eq, as_vec)
                } else {
                    None
                },
            },
        }
    }
}

/// The bindings of the instances that the bindings `maps` give, in order:
/// those for which every fact holds.
pub open spec fn instances_from<
    V: Clone,
    F: Fn(&V) -> String,
    E: Fn(&V, &V) -> bool,
    A: Fn(&V) -> Option<Vec<V>>,
>(
    maps: Seq<Map<Seq<char>, V>>,
    facts: Seq<Fact<MkVal<V>>>,
    variables: Map<(Seq<char>, Seq<char>), V>,
    id_of: F,
    eq: E,
    as_vec: A,
) -> Seq<Map<Seq<char>, V>>
    decreases maps.len(),
{
    if maps.len() == 0 {
        seq![]
    } else {
        let prev = instances_from(maps.drop_last(), facts, variables, id_of, eq, as_vec);
        match facts_bound(facts, variables, maps.last(), id_of, eq, as_vec) {
            Some(b) => prev.push(b),
            None => prev,
        }
    }
}

/// `r` are the instances of `cst` in the state with the given variables:
/// for every choice of entities for its declared entities, in order, one
/// where all its facts hold, with the bindings that gives and a copy of
/// the state.
pub open spec fn state_instances<
    V: Clone,
    G: Fn(&String) -> V,
    F: Fn(&V) -> String,
    E: Fn(&V, &V) -> bool,
    A: Fn(&V) -> Option<Vec<V>>,
>(
    cst: Cst<V>,
    r: Seq<BoundCst<V>>,
    variables: Map<(Seq<char>, Seq<char>), V>,
    classes: Map<Seq<char>, Vec<String>>,
    entity_value: G,
    id_of: F,
    eq: E,
    as_vec: A,
) -> bool {
    let expected = instances_from(
        entity_binding_maps(cst, classes, entity_value),
        cst.facts@,
        variables,
        id_of,
        eq,
        as_vec,
    );
    &&& r.len() == expected.len()
    &&& forall|i: int|
        0 <= i < r.len() ==> (#[trigger] r[i]).bindings@ == expected[i] && cst_cloned(cst, r[i].cst)
}

/// `Itertools::multi_cartesian_product` on the lists. Its documentation
/// gives the order: lexicographic, the last list varying fastest, and one
/// empty vector for no lists. The items are clones, and a clone of a
/// `String` equals the string it copies.
#[verifier::external_body]
fn multi_cartesian_product(lists: Vec<Vec<(String, String)>>) -> (r: Vec<Vec<(String, String)>>)
    ensures
        r@.map_values(|c: Vec<(String, String)>| c@) == cartesian(
            lists@.map_values(|l: Vec<(String, String)>| l@),
        ),
{
    lists.into_iter().multi_cartesian_product().collect()
}

impl<V: Clone> Cst<V> {
    /// The bindings of every way of choosing, for each declared entity whose
    /// class `entities_in_classes` lists, an entity of that class, in
    /// lexicographic order; an entity is bound to the value `entity_value`
    /// gives its id.
    pub fn all_possible_entity_bindings<C, G: Fn(&String) -> V>(
        &self,
        system: &System<V, C>,
        entity_value: &G,
    ) -> (r: Vec<StrMap<V>>)
        requires
            entity_values_decided(*entity_value),
        ensures
            r@.len() == entity_binding_maps(*self, system.entities_in_classes@, *entity_value).len(),
            forall|i: int|
                0 <= i < r@.len() ==> (#[trigger] r@[i])@ == entity_binding_maps(
                    *self,
                    system.entities_in_classes@,
                    *entity_value,
                )[i],
    {
        let entities_in_classes = &system.entities_in_classes;
        let ghost classes = entities_in_classes@;
        let mut lists: Vec<Vec<(String, String)>> = Vec::new();
        let mut i: usize = 0;
        while i < self.entities.len()
            invariant
                i <= self.entities.len(),
                classes == entities_in_classes@,
                lists@.map_values(|l: Vec<(String, String)>| l@) == class_choices(
                    self.entities@.take(i as int),
                    classes,
                ),
            decreases self.entities.len() - i,
        {
            let decl = &self.entities[i];
            assert(self.entities@.take(i + 1).drop_last() =~= self.entities@.take(i as int));
            match entities_in_classes.get(&decl.class) {
                Some(es) => {
                    let mut list: Vec<(String, String)> = Vec::new();
                    let mut k: usize = 0;
                    while k < es.len()
                        invariant
                            k <= es.len(),
                            list@ == es@.take(k as int).map_values(
                                |e: String| (decl.binding, e),
                            ),
                        decreases es.len() - k,
                    {
                        list.push((decl.binding.clone(), es[k].clone()));
                        assert(list@ =~= es@.take(k + 1).map_values(
                            |e: String| (decl.binding, e),
                        ));
                        k = k + 1;
                    }
                    assert(es@.take(es@.len() as int) =~= es@);
                    let ghost before = lists@;
                    lists.push(list);
                    assert(lists@.map_values(|l: Vec<(String, String)>| l@) =~= before.map_values(
                        |l: Vec<(String, String)>| l@,
                    ).push(list@));
                },
                None => {},
            }
            i = i + 1;
        }
        assert(self.entities@.take(self.entities@.len() as int) =~= self.entities@);
        let combos = multi_cartesian_product(lists);
        let ghost product = cartesian(class_choices(self.entities@, classes));
        let mut out: Vec<StrMap<V>> = Vec::new();
        let mut j: usize = 0;
        while j < combos.len()
            invariant
                j <= combos.len(),
                entity_values_decided(*entity_value),
                combos@.map_values(|c: Vec<(String, String)>| c@) == product,
                product == cartesian(class_choices(self.entities@, classes)),
                classes == entities_in_classes@,
                out@.len() == j,
                forall|t: int|
                    0 <= t < j ==> (#[trigger] out@[t])@ == entity_map(product[t], *entity_value),
            decreases combos.len() - j,
        {
            let combo = &combos[j];
            assert(combo@ == product[j as int]);
            let mut m: StrMap<V> = StrMap::new();
            let mut k: usize = 0;
            while k < combo.len()
                invariant
                    k <= combo.len(),
                    entity_values_decided(*entity_value),
                    m@ == entity_map(combo@.take(k as int), *entity_value),
                decreases combo.len() - k,
            {
                let v = entity_value(&combo[k].1);
                proof {
                    let pairs = combo@.take(k + 1);
                    assert(pairs.drop_last() =~= combo@.take(k as int));
                    let mapped = pairs.map_values(
                        |p: (String, String)| (p.0@, value_for(*entity_value, p.1)),
                    );
                    assert(mapped.drop_last() =~= combo@.take(k as int).map_values(
                        |p: (String, String)| (p.0@, value_for(*entity_value, p.1)),
                    ));
                    assert(entity_value.ensures((&combo@[k as int].1,), value_for(
                        *entity_value,
                        combo@[k as int].1,
                    )));
                }
                m.insert(combo[k].0.clone(), v);
                k = k + 1;
            }
            assert(combo@.take(combo@.len() as int) =~= combo@);
            out.push(m);
            j = j + 1;
        }
        out
    }
}

impl<V: Clone> BoundCst<V> {
    /// The instances of `cst` in the state with the given variables, keyed
    /// by entity id and variable name (see `state_instances`).
    pub fn try_instantiate_from_state<
        C,
        G: Fn(&String) -> V,
        F: Fn(&V) -> String,
        E: Fn(&V, &V) -> bool,
        A: Fn(&V) -> Option<Vec<V>>,
    >(
        cst: &Cst<V>,
        state: &SystemState<V>,
        system: &System<V, C>,
        entity_value: &G,
        id_of: &F,
        eq: &E,
        as_vec: &A,
    ) -> (r: Vec<BoundCst<V>>)
        requires
            entity_values_decided(*entity_value),
            ids_decided(*id_of),
            eq_answers(*eq),
            as_vec_reads(*as_vec),
            clones_equal::<V>(),
        ensures
            state_instances(
                *cst,
                r@,
                state.variables@,
                system.entities_in_classes@,
                *entity_value,
                *id_of,
                *eq,
                *as_vec,
            ),
    {
        let variables = &state.variables;
        let maps = cst.all_possible_entity_bindings(system, entity_value);
        let ghost gm = entity_binding_maps(*cst, system.entities_in_classes@, *entity_value);
        let ghost facts = cst.facts@;
        assert(maps@.map_values(|m: StrMap<V>| m@) =~= gm);
        let mut rest = maps;
        let ghost mut done: int = 0;
        let mut out: Vec<BoundCst<V>> = Vec::new();
        while rest.len() > 0
            invariant
                0 <= done <= gm.len(),
                rest@.len() == gm.len() - done,
                forall|t: int| 0 <= t < rest@.len() ==> (#[trigger] rest@[t])@ == gm[done + t],
                ids_decided(*id_of),
                eq_answers(*eq),
                as_vec_reads(*as_vec),
                clones_equal::<V>(),
                facts == cst.facts@,
                out@.len() == instances_from(gm.take(done), facts, variables@, *id_of, *eq, *as_vec).len(),
                forall|t: int|
                    0 <= t < out@.len() ==> (#[trigger] out@[t]).bindings@ == instances_from(
                        gm.take(done),
                        facts,
                        variables@,
                        *id_of,
                        *eq,
                        *as_vec,
                    )[t] && cst_cloned(*cst, out@[t].cst),
            decreases rest@.len(),
        {
            assert(rest@[0]@ == gm[done]);
            let m = rest.remove(0);
            let ghost m0 = m@;
            let mut binding_map = m;
            let mut ok = true;
            let mut j: usize = 0;
            while j < cst.facts.len()
                invariant
                    j <= cst.facts.len(),
                    facts == cst.facts@,
                    ids_decided(*id_of),
                    eq_answers(*eq),
                    as_vec_reads(*as_vec),
                    clones_equal::<V>(),
                    ok ==> facts_bound(facts.take(j as int), variables@, m0, *id_of, *eq, *as_vec)
                        == Some(binding_map@),
                    !ok ==> facts_bound(facts.take(j as int), variables@, m0, *id_of, *eq, *as_vec)
                        is None,
                decreases cst.facts.len() - j,
            {
                assert(facts.take(j + 1).drop_last() =~= facts.take(j as int));
                assert(facts.take(j + 1).last() == facts[j as int]);
                if ok {
                    let f = &cst.facts[j];
                    let id: Option<String> = match &f.pattern.entity_id {
                        EntityPatternValue::Binding(b) => match binding_map.get(b) {
                            Some(v) => {
                                let read = id_of(v);
                                proof {
                                    let c = choose|s: String| id_of.ensures((v,), s);
                                    assert(id_of.ensures((v,), c));
                                }
                                Some(read)
                            },
                            None => None,
                        },
                        EntityPatternValue::EntityId(id) => Some(id.clone()),
                    };
                    match id {
                        None => {
                            ok = false;
                        },
                        Some(id) => {
                            let key = (id, f.pattern.var_name.clone());
                            match variables.get(&key) {
                                None => {
                                    ok = false;
                                },
                                Some(value) => {
                                    let result = pattern_item_matches_value_with_bindings(
                                        &f.pattern.value,
                                        value,
                                        binding_map,
                                        eq,
                                        as_vec,
                                    );
                                    match result {
                                        PatternMatchResult::True(u) => {
                                            binding_map = u;
                                        },
                                        PatternMatchResult::False => {
                                            ok = false;
                                            binding_map = StrMap::new();
                                        },
                                    }
                                },
                            }
                        },
                    }
                }
                j = j + 1;
            }
            assert(facts.take(facts.len() as int) =~= facts);
            proof {
                assert(gm.take(done + 1).drop_last() =~= gm.take(done));
                assert(gm.take(done + 1).last() == gm[done]);
            }
            if ok {
                out.push(BoundCst { bindings: binding_map, cst: cst.clone() });
            }
            proof {
                done = done + 1;
                assert forall|t: int| 0 <= t < rest@.len() implies (#[trigger] rest@[t])@ == gm[done
                    + t] by {
                }
            }
        }
        assert(gm.take(gm.len() as int) =~= gm);
        out
    }
}

} // verus!
