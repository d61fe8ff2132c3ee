//! Backward chaining: from a goal, the instantiated models whose effects
//! lead to it, and the sub-goals that must hold for them, level by level
//! back towards the current state.

use vstd::prelude::*;
use itertools::Itertools;
use crate::runtime::pattern_matching::{
    as_vec_reads, clones_equal, extract_item_value_pairs, item_value_pairs, pairs_view,
    value_ops_sound, PatternMatchResult, seqs_equal_answer, items_equal_answer, items_equal,
    entities_agree, items_compare_answer, value_ops_callable, compare_imdls, value_with_bindings,
};
use crate::str_map::{entries_map, keys_distinct, lemma_entries_map_contains, lemma_entries_map_len, StrMap};
use vstd::set_lib::lemma_subset_equality;
use crate::types::cst::{
    bound_count, cst_binding_params, declared_bindings, fact_filled, filled_facts, is_bound_name, Cst,
    ICst,
};
use crate::types::functions::{arith_decides, conv_decides, ArithOp};
use crate::types::instances::{
    abduced, bound_from_instances, expandable, instances_of, instantiated_as, right_match_outcome, AbductionResult,
};
use crate::runtime::simulation::forward::imdls_match_answer;
use crate::types::models::{computed_after, imdl_cloned, imdl_filled, mdl_cloned, BoundModel, IMdl, Mdl, MdlLeftValue, MdlRightValue};
use crate::types::pattern::{item_fully_unbound, items_cloned, strings_view, PatternItem};
use crate::types::runtime::{System, SystemState};
use crate::types::state_instances::{
    cartesian, class_choices, entity_map, entity_values_decided, fact_key, ids_decided, id_read,
};
use crate::runtime::utils::{
    all_assumption_models, all_causal_models, all_req_models, all_state_prediction_models, model_of_kind,
    models_where,
};
use crate::types::{mk_val_cloned, EntityDeclaration, EntityPatternValue, Fact, MkVal, TimePatternRange, TimePatternValue};

verus! {

/// How many levels of sub-goals backward chaining looks through.
pub const MAX_DEPTH: usize = 7;

/// `m` extended, in order, by the pairs of `s` whose names it does not
/// hold yet: a name keeps the first value it gets.
pub open spec fn with_new_pairs<V>(m: Map<Seq<char>, V>, s: Seq<(Seq<char>, V)>) -> Map<Seq<char>, V>
    decreases s.len(),
{
    if s.len() == 0 {
        m
    } else {
        let before = with_new_pairs(m, s.drop_last());
        if before.contains_key(s.last().0) {
            before
        } else {
            before.insert(s.last().0, s.last().1)
        }
    }
}

/// The value that the state's variables `vars` hold for the variable a
/// fact speaks of, its entity read under the bindings `eb`.
pub open spec fn held_value<V, F: Fn(&V) -> String>(
    f: MkVal<V>,
    eb: Map<Seq<char>, V>,
    vars: Map<(Seq<char>, Seq<char>), V>,
    id_of: F,
) -> Option<V> {
    match fact_key(f, eb, id_of) {
        Some(k) => if vars.contains_key(k) {
            Some(vars[k])
        } else {
            None
        },
        None => None,
    }
}

/// The bindings that facts, taken in the order given, choose: starting from
/// the entity bindings `eb`, each fact whose variable the state holds binds
/// the bindings of its value pattern to the parts of the held value, a
/// binding keeping the first value it gets.
pub open spec fn order_bindings<V: Clone, F: Fn(&V) -> String, A: Fn(&V) -> Option<Vec<V>>>(
    facts: Seq<Fact<MkVal<V>>>,
    eb: Map<Seq<char>, V>,
    vars: Map<(Seq<char>, Seq<char>), V>,
    id_of: F,
    as_vec: A,
) -> Map<Seq<char>, V>
    decreases facts.len(),
{
    if facts.len() == 0 {
        eb
    } else {
        let before = order_bindings(facts.drop_last(), eb, vars, id_of, as_vec);
        match held_value(facts.last().pattern, eb, vars, id_of) {
            Some(v) => with_new_pairs(before, item_value_pairs(facts.last().pattern.value, v, as_vec)),
            None => before,
        }
    }
}

/// The items of `s` in the order of the indices `order`.
pub open spec fn permuted<T>(s: Seq<T>, order: Seq<usize>) -> Seq<T> {
    order.map_values(|i: usize| s[i as int])
}

/// The index lists, as sequences.
pub open spec fn order_views(orders: Seq<Vec<usize>>) -> Seq<Seq<usize>> {
    orders.map_values(|p: Vec<usize>| p@)
}

/// Every index list of `orders` is an ordering of indices below `n`.
pub open spec fn orders_within(orders: Seq<Seq<usize>>, n: nat) -> bool {
    forall|k: int, i: int| 0 <= k < orders.len() && 0 <= i < orders[k].len() ==> #[trigger] orders[k][i] < n
}

/// The bindings that facts taken in the given order choose.
fn binding_variation_for_order<
    V: Clone,
    C,
    F: Fn(&V) -> String,
    A: Fn(&V) -> Option<Vec<V>>,
>(
    goal: &Vec<Fact<MkVal<V>>>,
    order: &Vec<usize>,
    entity_bindings: &StrMap<V>,
    system: &System<V, C>,
    id_of: &F,
    as_vec: &A,
) -> (r: StrMap<V>)
    requires
        forall|i: int| 0 <= i < order@.len() ==> #[trigger] order@[i] < goal@.len(),
        ids_decided(*id_of),
        as_vec_reads(*as_vec),
        clones_equal::<V>(),
    ensures
        r@ == order_bindings(
            permuted(goal@, order@),
            entity_bindings@,
            system.current_state.variables@,
            *id_of,
            *as_vec,
        ),
{
    let variables = &system.current_state.variables;
    let ghost vars = variables@;
    let ghost eb = entity_bindings@;
    let ghost facts = permuted(goal@, order@);
    let mut binding_map = entity_bindings.clone();
    assert(binding_map.entries_view() =~= entity_bindings.entries_view());
    assert(facts.take(0) =~= Seq::<Fact<MkVal<V>>>::empty());
    let mut i: usize = 0;
    while i < order.len()
        invariant
            i <= order@.len(),
            forall|j: int| 0 <= j < order@.len() ==> #[trigger] order@[j] < goal@.len(),
            ids_decided(*id_of),
            as_vec_reads(*as_vec),
            clones_equal::<V>(),
            vars == variables@,
            eb == entity_bindings@,
            facts == permuted(goal@, order@),
            binding_map@ == order_bindings(facts.take(i as int), eb, vars, *id_of, *as_vec),
        decreases order@.len() - i,
    {
        let ghost before = binding_map@;
        assert(facts.take(i + 1).drop_last() =~= facts.take(i as int));
        assert(order@[i as int] < goal@.len());
        let f = &goal[order[i]];
        assert(*f == facts[i as int]);
        assert(facts.take(i + 1).last() == *f);
        let id: Option<String> = match &f.pattern.entity_id {
            EntityPatternValue::Binding(b) => match entity_bindings.get(b) {
                Some(v) => {
                    let read = id_of(v);
                    proof {
                        let c = choose|s: String| id_of.ensures((v,), s);
                        assert(id_of.ensures((v,), c));
                    }
                    Some(read)
                },
                None => None,
            },
            EntityPatternValue::EntityId(id) => Some(id.clone()),
        };
        match id {
            None => {
                assert(held_value(f.pattern, eb, vars, *id_of) is None);
            },
            Some(id) => {
                let key = (id, f.pattern.var_name.clone());
                match variables.get(&key) {
                    None => {
                        assert(held_value(f.pattern, eb, vars, *id_of) is None);
                    },
                    Some(held) => {
                        assert(held_value(f.pattern, eb, vars, *id_of) == Some(*held));
                        let pairs = extract_item_value_pairs(&f.pattern.value, held, as_vec);
                        let ghost ps = pairs_view(pairs@);
                        let mut k: usize = 0;
                        assert(ps.take(0) =~= Seq::<(Seq<char>, V)>::empty());
                        while k < pairs.len()
                            invariant
                                k <= pairs@.len(),
                                ps == pairs_view(pairs@),
                                clones_equal::<V>(),
                                binding_map@ == with_new_pairs(before, ps.take(k as int)),
                            decreases pairs@.len() - k,
                        {
                            assert(ps.take(k + 1).drop_last() =~= ps.take(k as int));
                            let (b, v) = &pairs[k];
                            assert(ps[k as int] == (b@, *v));
                            assert(ps.take(k + 1).last() == ps[k as int]);
                            if !binding_map.contains_key(b) {
                                let value = v.clone();
                                assert(cloned(*v, value));
                                binding_map.insert(b.clone(), value);
                            }
                            k = k + 1;
                        }
                        assert(ps.take(pairs@.len() as int) =~= ps);
                    },
                }
            },
        }
        i = i + 1;
    }
    assert(facts.take(order@.len() as int) =~= facts);
    binding_map
}

/// `ans` is an answer that comparing binding maps `a` and `b` may give:
/// the same names with values that `eq` answers equal, or names that differ
/// or a value that `eq` answers different.
pub open spec fn bindings_same_answer<V, E: Fn(&V, &V) -> bool>(
    a: Map<Seq<char>, V>,
    b: Map<Seq<char>, V>,
    eq: E,
    ans: bool,
) -> bool {
    if ans {
        &&& a.dom() == b.dom()
        &&& forall|k: Seq<char>| #[trigger] a.contains_key(k) ==> eq.ensures((&a[k], &b[k]), true)
    } else {
        ||| a.dom() != b.dom()
        ||| exists|k: Seq<char>|
            #[trigger] a.contains_key(k) && b.contains_key(k) && eq.ensures((&a[k], &b[k]), false)
    }
}

/// Whether two binding maps hold the same names with values that `eq`
/// answers equal.
fn same_bindings<V, E: Fn(&V, &V) -> bool>(a: &StrMap<V>, b: &StrMap<V>, eq: &E) -> (r: bool)
    requires
        forall|x: &V, y: &V| #[trigger] eq.requires((x, y)),
    ensures
        bindings_same_answer(a@, b@, *eq, r),
{
    let n = a.len();
    let m = b.len();
    proof {
        lemma_entries_map_len(a.entries_view());
        lemma_entries_map_len(b.entries_view());
    }
    if n != m {
        return false;
    }
    let ghost ev = a.entries_view();
    let mut i: usize = 0;
    while i < n
        invariant
            i <= n,
            n == ev.len(),
            ev == a.entries_view(),
            keys_distinct(ev),
            forall|x: &V, y: &V| #[trigger] eq.requires((x, y)),
            forall|j: int|
                0 <= j < i ==> b@.contains_key(#[trigger] ev[j].0) && eq.ensures(
                    (&a@[ev[j].0], &b@[ev[j].0]),
                    true,
                ),
        decreases n - i,
    {
        let (k, v) = a.entry_at(i);
        match b.get(k) {
            None => {
                assert(a@.contains_key(k@));
                assert(!b@.dom().contains(k@));
                return false;
            },
            Some(w) => {
                let same = eq(v, w);
                if !same {
                    assert(a@.contains_key(k@) && b@.contains_key(k@));
                    return false;
                }
            },
        }
        i = i + 1;
    }
    proof {
        assert forall|k: Seq<char>| #[trigger] a@.contains_key(k) implies b@.contains_key(k)
            && eq.ensures((&a@[k], &b@[k]), true) by {
            lemma_entries_map_contains(ev, k);
            let j = choose|j: int| 0 <= j < ev.len() && #[trigger] ev[j].0 == k;
            assert(b@.contains_key(ev[j].0));
        }
        assert(a@.dom().subset_of(b@.dom()));
        lemma_subset_equality(a@.dom(), b@.dom());
    }
    true
}

/// The items of `s` that `keep` marks, in order.
pub open spec fn kept<T>(s: Seq<T>, keep: Seq<bool>) -> Seq<T>
    decreases s.len(),
{
    if s.len() == 0 || keep.len() == 0 {
        seq![]
    } else {
        let before = kept(s.drop_last(), keep.drop_last());
        if keep.last() {
            before.push(s.last())
        } else {
            before
        }
    }
}

/// Whether the map `m` is kept (`keep`) after the maps kept `before` it:
/// kept when it differs from each of them, left out when it is the same as
/// one of them.
pub open spec fn kept_step<V, E: Fn(&V, &V) -> bool>(
    before: Seq<Map<Seq<char>, V>>,
    m: Map<Seq<char>, V>,
    keep: bool,
    eq: E,
) -> bool {
    if keep {
        forall|j: int| 0 <= j < before.len() ==> #[trigger] bindings_same_answer(before[j], m, eq, false)
    } else {
        exists|j: int| 0 <= j < before.len() && #[trigger] bindings_same_answer(before[j], m, eq, true)
    }
}

/// `keep` marks the first map of each group that `eq` answers the same,
/// each map compared with those kept before it.
pub open spec fn first_of_each<V, E: Fn(&V, &V) -> bool>(
    s: Seq<Map<Seq<char>, V>>,
    keep: Seq<bool>,
    eq: E,
) -> bool {
    &&& keep.len() == s.len()
    &&& forall|k: int|
        0 <= k < s.len() ==> #[trigger] kept_step(kept(s.take(k), keep.take(k)), s[k], keep[k], eq)
}

/// Marking one more map keeps the marking the first of each group.
proof fn lemma_first_of_each_push<V, E: Fn(&V, &V) -> bool>(
    s: Seq<Map<Seq<char>, V>>,
    keep: Seq<bool>,
    m: Map<Seq<char>, V>,
    b: bool,
    eq: E,
)
    requires
        first_of_each(s, keep, eq),
        kept_step(kept(s, keep), m, b, eq),
    ensures
        first_of_each(s.push(m), keep.push(b), eq),
        kept(s.push(m), keep.push(b)) == if b {
            kept(s, keep).push(m)
        } else {
            kept(s, keep)
        },
{
    let s2 = s.push(m);
    let k2 = keep.push(b);
    assert(s2.drop_last() =~= s);
    assert(k2.drop_last() =~= keep);
    assert forall|k: int| 0 <= k < s2.len() implies #[trigger] kept_step(
        kept(s2.take(k), k2.take(k)),
        s2[k],
        k2[k],
        eq,
    ) by {
        if k < s.len() {
            assert(s2.take(k) =~= s.take(k));
            assert(k2.take(k) =~= keep.take(k));
            assert(kept_step(kept(s.take(k), keep.take(k)), s[k], keep[k], eq));
        } else {
            assert(s2.take(k) =~= s);
            assert(k2.take(k) =~= keep);
        }
    }
}

/// For each entity binding map, in order, the bindings that each ordering
/// of the goal's facts chooses, the orderings in order.
pub open spec fn variation_candidates<V: Clone, F: Fn(&V) -> String, A: Fn(&V) -> Option<Vec<V>>>(
    goal: Seq<Fact<MkVal<V>>>,
    orders: Seq<Seq<usize>>,
    ebs: Seq<Map<Seq<char>, V>>,
    vars: Map<(Seq<char>, Seq<char>), V>,
    id_of: F,
    as_vec: A,
) -> Seq<Map<Seq<char>, V>>
    decreases ebs.len(),
{
    if ebs.len() == 0 {
        seq![]
    } else {
        variation_candidates(goal, orders, ebs.drop_last(), vars, id_of, as_vec) + orders.map_values(
            |p: Seq<usize>| order_bindings(permuted(goal, p), ebs.last(), vars, id_of, as_vec),
        )
    }
}

/// Some fact of the goal has the entity binding `b`.
pub open spec fn binds_entity<V: Clone>(goal: Seq<Fact<MkVal<V>>>, b: Seq<char>) -> bool {
    exists|i: int|
        0 <= i < goal.len() && (#[trigger] goal[i]).pattern.entity_id is Binding
            && goal[i].pattern.entity_id->Binding_0@ == b
}

/// The declarations, in order, whose binding is the entity of some fact of
/// the goal.
pub open spec fn goal_decls<V: Clone>(decls: Seq<EntityDeclaration>, goal: Seq<Fact<MkVal<V>>>) -> Seq<
    EntityDeclaration,
>
    decreases decls.len(),
{
    if decls.len() == 0 {
        seq![]
    } else {
        let before = goal_decls(decls.drop_last(), goal);
        if binds_entity(goal, decls.last().binding@) {
            before.push(decls.last())
        } else {
            before
        }
    }
}

/// The declarations given, none where none are.
pub open spec fn decls_of(o: Option<&Vec<EntityDeclaration>>) -> Seq<EntityDeclaration> {
    match o {
        Some(v) => v@,
        None => seq![],
    }
}

/// The entity binding maps to vary over: every choice of entities for the
/// declarations, or one empty map where there is no choice.
pub open spec fn choice_maps<V, G: Fn(&String) -> V>(
    decls: Seq<EntityDeclaration>,
    classes: Map<Seq<char>, Vec<String>>,
    entity_value: G,
) -> Seq<Map<Seq<char>, V>> {
    let maps = cartesian(class_choices(decls, classes)).map_values(
        |c: Seq<(String, String)>| entity_map(c, entity_value),
    );
    if maps.len() == 0 {
        seq![Map::empty()]
    } else {
        maps
    }
}

/// The distinct binding maps that the orderings `orders` of the goal's
/// facts choose under the entity bindings of `decls`: the first map of each
/// group that `eq` answers the same.
pub open spec fn distinct_variations<
    V: Clone,
    G: Fn(&String) -> V,
    F: Fn(&V) -> String,
    A: Fn(&V) -> Option<Vec<V>>,
    E: Fn(&V, &V) -> bool,
>(
    goal: Seq<Fact<MkVal<V>>>,
    orders: Seq<Seq<usize>>,
    decls: Seq<EntityDeclaration>,
    classes: Map<Seq<char>, Vec<String>>,
    vars: Map<(Seq<char>, Seq<char>), V>,
    entity_value: G,
    id_of: F,
    as_vec: A,
    eq: E,
    keep: Seq<bool>,
) -> bool {
    first_of_each(
        variation_candidates(
            goal,
            orders,
            choice_maps(goal_decls(decls, goal), classes, entity_value),
            vars,
            id_of,
            as_vec,
        ),
        keep,
        eq,
    )
}

/// Whether some fact of the goal has the entity binding `b`.
fn goal_binds_entity<V: Clone>(goal: &Vec<Fact<MkVal<V>>>, b: &String) -> (r: bool)
    ensures
        r == binds_entity(goal@, b@),
{
    let mut i: usize = 0;
    while i < goal.len()
        invariant
            i <= goal@.len(),
            forall|j: int|
                0 <= j < i ==> !((#[trigger] goal@[j]).pattern.entity_id is Binding
                    && goal@[j].pattern.entity_id->Binding_0@ == b@),
        decreases goal@.len() - i,
    {
        match &goal[i].pattern.entity_id {
            EntityPatternValue::Binding(x) => {
                if *x == *b {
                    assert(goal@[i as int].pattern.entity_id->Binding_0@ == b@);
                    return true;
                }
            },
            _ => {},
        }
        i = i + 1;
    }
    false
}

/// `r` holds the goal's facts filled in with each distinct binding map that
/// the orderings `orders` choose (see `distinct_variations`), in order.
pub open spec fn variations_of<
    V: Clone,
    G: Fn(&String) -> V,
    F: Fn(&V) -> String,
    A: Fn(&V) -> Option<Vec<V>>,
    E: Fn(&V, &V) -> bool,
>(
    goal: Seq<Fact<MkVal<V>>>,
    orders: Seq<Seq<usize>>,
    decls: Seq<EntityDeclaration>,
    classes: Map<Seq<char>, Vec<String>>,
    vars: Map<(Seq<char>, Seq<char>), V>,
    entity_value: G,
    id_of: F,
    as_vec: A,
    eq: E,
    r: Seq<Vec<Fact<MkVal<V>>>>,
) -> bool {
    exists|keep: Seq<bool>|
        {
            let cands = variation_candidates(
                goal,
                orders,
                choice_maps(goal_decls(decls, goal), classes, entity_value),
                vars,
                id_of,
                as_vec,
            );
            &&& #[trigger] distinct_variations(goal, orders, decls, classes, vars, entity_value, id_of, as_vec, eq, keep)
            &&& r.len() == kept(cands, keep).len()
            &&& forall|i: int| 0 <= i < r.len() ==> (#[trigger] r[i])@.len() == goal.len()
            &&& forall|i: int, j: int|
                0 <= i < r.len() && 0 <= j < goal.len() ==> #[trigger] fact_filled(
                    goal[j],
                    r[i]@[j],
                    kept(cands, keep)[i],
                    id_of,
                )
        }
}

/// The goal's facts filled in with each distinct choice of bindings that
/// some ordering of the facts makes. For each entity binding map of the
/// declarations that the goal's facts bind (one empty map where there is
/// none), each ordering in `orders`, in order, fills in, fact by fact, the
/// bindings of each fact's value from the state's value of its variable;
/// of the maps that `eq` answers the same only the first is used.
pub fn variations_for_orders<
    V: Clone,
    C,
    G: Fn(&String) -> V,
    F: Fn(&V) -> String,
    A: Fn(&V) -> Option<Vec<V>>,
    E: Fn(&V, &V) -> bool,
>(
    goal: &Vec<Fact<MkVal<V>>>,
    orders: &Vec<Vec<usize>>,
    sub_goal_entities: Option<&Vec<EntityDeclaration>>,
    system: &System<V, C>,
    entity_value: &G,
    id_of: &F,
    as_vec: &A,
    eq: &E,
) -> (r: Vec<Vec<Fact<MkVal<V>>>>)
    requires
        orders_within(order_views(orders@), goal@.len()),
        entity_values_decided(*entity_value),
        ids_decided(*id_of),
        as_vec_reads(*as_vec),
        clones_equal::<V>(),
        forall|x: &V, y: &V| #[trigger] eq.requires((x, y)),
    ensures
        variations_of(
            goal@,
            order_views(orders@),
            decls_of(sub_goal_entities),
            system.entities_in_classes@,
            system.current_state.variables@,
            *entity_value,
            *id_of,
            *as_vec,
            *eq,
            r@,
        ),
{
    let ghost ords = order_views(orders@);
    let ghost classes = system.entities_in_classes@;
    let ghost vars = system.current_state.variables@;
    let empty: Vec<EntityDeclaration> = Vec::new();
    let decls: &Vec<EntityDeclaration> = match sub_goal_entities {
        Some(d) => d,
        None => &empty,
    };
    assert(decls@ == decls_of(sub_goal_entities));
    let mut entities: Vec<EntityDeclaration> = Vec::new();
    let mut j: usize = 0;
    assert(decls@.take(0) =~= Seq::<EntityDeclaration>::empty());
    while j < decls.len()
        invariant
            j <= decls@.len(),
            entities@ == goal_decls(decls@.take(j as int), goal@),
        decreases decls@.len() - j,
    {
        assert(decls@.take(j + 1).drop_last() =~= decls@.take(j as int));
        let d = &decls[j];
        if goal_binds_entity(goal, &d.binding) {
            entities.push(EntityDeclaration { binding: d.binding.clone(), class: d.class.clone() });
        }
        j = j + 1;
    }
    assert(decls@.take(decls@.len() as int) =~= decls@);
    let ghost gdecls = entities@;
    let cst: Cst<V> = Cst { cst_id: String::new(), facts: Vec::new(), entities };
    let mut ebs = cst.all_possible_entity_bindings(system, entity_value);
    if ebs.len() == 0 {
        ebs.push(StrMap::new());
    }
    let ghost ebsv = choice_maps(gdecls, classes, *entity_value);
    assert(ebs@.len() == ebsv.len());
    assert(forall|e: int| 0 <= e < ebs@.len() ==> (#[trigger] ebs@[e])@ == ebsv[e]);
    let ghost mut processed: Seq<Map<Seq<char>, V>> = seq![];
    let ghost mut keep: Seq<bool> = seq![];
    let mut maps: Vec<StrMap<V>> = Vec::new();
    assert(ebsv.take(0) =~= Seq::<Map<Seq<char>, V>>::empty());
    let mut e: usize = 0;
    while e < ebs.len()
        invariant
            e <= ebs@.len(),
            ebs@.len() == ebsv.len(),
            forall|x: int| 0 <= x < ebs@.len() ==> (#[trigger] ebs@[x])@ == ebsv[x],
            ords == order_views(orders@),
            orders_within(ords, goal@.len()),
            vars == system.current_state.variables@,
            ids_decided(*id_of),
            as_vec_reads(*as_vec),
            clones_equal::<V>(),
            forall|x: &V, y: &V| #[trigger] eq.requires((x, y)),
            processed == variation_candidates(goal@, ords, ebsv.take(e as int), vars, *id_of, *as_vec),
            first_of_each(processed, keep, *eq),
            maps@.map_values(|x: StrMap<V>| x@) == kept(processed, keep),
        decreases ebs@.len() - e,
    {
        let ghost start = processed;
        let ghost eb = ebsv[e as int];
        let ghost fe = |p: Seq<usize>| order_bindings(permuted(goal@, p), eb, vars, *id_of, *as_vec);
        assert(ebsv.take(e + 1).drop_last() =~= ebsv.take(e as int));
        assert(ords.take(0).map_values(fe) =~= Seq::<Map<Seq<char>, V>>::empty());
        assert(start + ords.take(0).map_values(fe) =~= start);
        let mut o: usize = 0;
        while o < orders.len()
            invariant
                e < ebs@.len(),
                o <= orders@.len(),
                ords == order_views(orders@),
                orders_within(ords, goal@.len()),
                eb == ebs@[e as int]@,
                vars == system.current_state.variables@,
                fe == (|p: Seq<usize>| order_bindings(permuted(goal@, p), eb, vars, *id_of, *as_vec)),
                ids_decided(*id_of),
                as_vec_reads(*as_vec),
                clones_equal::<V>(),
                forall|x: &V, y: &V| #[trigger] eq.requires((x, y)),
                processed == start + ords.take(o as int).map_values(fe),
                first_of_each(processed, keep, *eq),
                maps@.map_values(|x: StrMap<V>| x@) == kept(processed, keep),
            decreases orders@.len() - o,
        {
            let order = &orders[o];
            assert(ords[o as int] == order@);
            assert forall|i: int| 0 <= i < order@.len() implies #[trigger] order@[i] < goal@.len() by {
                assert(ords[o as int][i] < goal@.len());
            }
            let m = binding_variation_for_order(goal, order, &ebs[e], system, id_of, as_vec);
            assert(m@ == fe(order@));
            let ghost before = kept(processed, keep);
            let mut found = false;
            let mut k: usize = 0;
            while k < maps.len() && !found
                invariant
                    k <= maps@.len(),
                    maps@.map_values(|x: StrMap<V>| x@) == before,
                    forall|x: &V, y: &V| #[trigger] eq.requires((x, y)),
                    found ==> exists|j: int|
                        0 <= j < before.len() && #[trigger] bindings_same_answer(before[j], m@, *eq, true),
                    !found ==> forall|j: int|
                        0 <= j < k ==> #[trigger] bindings_same_answer(before[j], m@, *eq, false),
                decreases maps@.len() - k,
            {
                let same = same_bindings(&maps[k], &m, eq);
                assert(before[k as int] == maps@[k as int]@);
                if same {
                    found = true;
                }
                k = k + 1;
            }
            assert(kept_step(before, m@, !found, *eq));
            proof {
                lemma_first_of_each_push(processed, keep, m@, !found, *eq);
            }
            if !found {
                maps.push(m);
            }
            proof {
                assert(ords.take(o + 1).map_values(fe) =~= ords.take(o as int).map_values(fe).push(fe(order@)));
                processed = processed.push(fe(order@));
                keep = keep.push(!found);
                assert(processed == start + ords.take(o + 1).map_values(fe));
            }
            assert(maps@.map_values(|x: StrMap<V>| x@) =~= kept(processed, keep));
            o = o + 1;
        }
        proof {
            assert(ords.take(ords.len() as int) =~= ords);
            assert(ords.map_values(fe) =~= ords.map_values(
                |p: Seq<usize>| order_bindings(permuted(goal@, p), ebsv.take(e + 1).last(), vars, *id_of, *as_vec),
            ));
        }
        e = e + 1;
    }
    assert(ebsv.take(ebsv.len() as int) =~= ebsv);
    let mut out: Vec<Vec<Fact<MkVal<V>>>> = Vec::new();
    let ghost ks = kept(processed, keep);
    let mut i: usize = 0;
    while i < maps.len()
        invariant
            i <= maps@.len(),
            maps@.map_values(|x: StrMap<V>| x@) == ks,
            ids_decided(*id_of),
            out@.len() == i,
            forall|x: int| 0 <= x < i ==> (#[trigger] out@[x])@.len() == goal@.len(),
            forall|x: int, y: int|
                0 <= x < i && 0 <= y < goal@.len() ==> #[trigger] fact_filled(
                    goal@[y],
                    out@[x]@[y],
                    ks[x],
                    *id_of,
                ),
        decreases maps@.len() - i,
    {
        let filled = filled_facts(goal, &maps[i], id_of);
        assert(ks[i as int] == maps@[i as int]@);
        out.push(filled);
        i = i + 1;
    }
    assert(distinct_variations(
        goal@,
        ords,
        decls_of(sub_goal_entities),
        classes,
        vars,
        *entity_value,
        *id_of,
        *as_vec,
        *eq,
        keep,
    ));
    out
}

/// Whether `name` is among the first `upto` names.
fn name_among(name: &String, names: &Vec<String>, upto: usize) -> (r: bool)
    requires
        upto <= names@.len(),
    ensures
        r == exists|i: int| 0 <= i < upto && (#[trigger] names@[i])@ == name@,
{
    let mut i: usize = 0;
    while i < upto
        invariant
            i <= upto <= names@.len(),
            forall|j: int| 0 <= j < i ==> (#[trigger] names@[j])@ != name@,
        decreases upto - i,
    {
        if names[i] == *name {
            return true;
        }
        i = i + 1;
    }
    false
}

/// Whether some declaration binds `name`.
fn is_declared(name: &String, entities: &Vec<EntityDeclaration>) -> (r: bool)
    ensures
        r == declared_bindings(entities@).contains(name@),
{
    let mut i: usize = 0;
    while i < entities.len()
        invariant
            i <= entities@.len(),
            forall|j: int| 0 <= j < i ==> (#[trigger] entities@[j]).binding@ != name@,
        decreases entities@.len() - i,
    {
        if entities[i].binding == *name {
            assert(declared_bindings(entities@)[i as int] == name@);
            return true;
        }
        i = i + 1;
    }
    assert forall|j: int| 0 <= j < declared_bindings(entities@).len() implies declared_bindings(
        entities@,
    )[j] != name@ by {
        assert(entities@[j].binding@ != name@);
    }
    false
}

/// Whether the state can be expanded with the parameters: every entity
/// binding of its facts and every declared binding is one of the names the
/// parameters bind, and no declared binding is bound to a wildcard.
fn is_expandable<V: Clone>(cst: &Cst<V>, params: &Vec<PatternItem<V>>) -> (r: bool)
    ensures
        r == expandable(*cst, params@),
{
    let names = cst.binding_params();
    let ghost ns = cst_binding_params(*cst);
    assert(strings_view(names@) == ns);
    let bc: usize = if names.len() <= params.len() {
        names.len()
    } else {
        params.len()
    };
    assert(bc == bound_count(ns.len(), params@.len()));
    assert forall|name: Seq<char>|
        is_bound_name(name, ns, params@.len()) <==> exists|i: int|
            0 <= i < bc && (#[trigger] names@[i])@ == name by {
        if is_bound_name(name, ns, params@.len()) {
            let i = choose|i: int| 0 <= i < bound_count(ns.len(), params@.len()) && ns[i] == name;
            assert(names@[i]@ == name);
        }
        if exists|i: int| 0 <= i < bc && (#[trigger] names@[i])@ == name {
            let i = choose|i: int| 0 <= i < bc && (#[trigger] names@[i])@ == name;
            assert(ns[i] == name);
        }
    }
    let mut i: usize = 0;
    while i < cst.facts.len()
        invariant
            i <= cst.facts@.len(),
            bc <= names@.len(),
            ns == cst_binding_params(*cst),
            forall|name: Seq<char>|
                is_bound_name(name, ns, params@.len()) <==> exists|k: int|
                    0 <= k < bc && (#[trigger] names@[k])@ == name,
            forall|j: int|
                0 <= j < i && (#[trigger] cst.facts@[j]).pattern.entity_id is Binding ==> is_bound_name(
                    cst.facts@[j].pattern.entity_id->Binding_0@,
                    ns,
                    params@.len(),
                ),
        decreases cst.facts@.len() - i,
    {
        match &cst.facts[i].pattern.entity_id {
            EntityPatternValue::Binding(b) => {
                if !name_among(b, &names, bc) {
                    assert(cst.facts@[i as int].pattern.entity_id->Binding_0@ == b@);
                    assert(!is_bound_name(cst.facts@[i as int].pattern.entity_id->Binding_0@, ns, params@.len()));
                    assert(!expandable(*cst, params@));
                    return false;
                }
            },
            _ => {},
        }
        i = i + 1;
    }
    let mut j: usize = 0;
    while j < cst.entities.len()
        invariant
            j <= cst.entities@.len(),
            bc <= names@.len(),
            ns == cst_binding_params(*cst),
            forall|name: Seq<char>|
                is_bound_name(name, ns, params@.len()) <==> exists|k: int|
                    0 <= k < bc && (#[trigger] names@[k])@ == name,
            forall|k: int|
                0 <= k < j ==> is_bound_name((#[trigger] cst.entities@[k]).binding@, ns, params@.len()),
        decreases cst.entities@.len() - j,
    {
        if !name_among(&cst.entities[j].binding, &names, bc) {
            assert(!is_bound_name(cst.entities@[j as int].binding@, ns, params@.len()));
            assert(!expandable(*cst, params@));
            return false;
        }
        j = j + 1;
    }
    let mut k: usize = 0;
    while k < bc
        invariant
            k <= bc,
            bc <= names@.len(),
            ns == cst_binding_params(*cst),
            bc <= params@.len(),
            strings_view(names@) == ns,
            bc == bound_count(ns.len(), params@.len()),
            forall|x: int|
                0 <= x < k && declared_bindings(cst.entities@).contains(ns[x]) ==> !(
                #[trigger] params@[x] is Any),
        decreases bc - k,
    {
        assert(ns[k as int] == names@[k as int]@);
        if is_declared(&names[k], &cst.entities) {
            match &params[k] {
                PatternItem::Any => {
                    assert(declared_bindings(cst.entities@).contains(ns[k as int]));
                    assert(params@[k as int] is Any);
                    assert(!expandable(*cst, params@));
                    return false;
                },
                _ => {},
            }
        }
        k = k + 1;
    }
    true
}

/// The composite state of a model's left-hand side, where it has one, is
/// known and can be expanded with the side's parameters.
pub open spec fn cst_ready<V: Clone, C>(model: Mdl<V, C>, csts: Map<Seq<char>, Cst<V>>) -> bool {
    model.left.pattern is ICst ==> {
        let icst = model.left.pattern->ICst_0;
        &&& csts.contains_key(icst.cst_id@)
        &&& expandable(csts[icst.cst_id@], icst.params@)
    }
}

/// The instantiation of the model that an abduction yields.
pub open spec fn abduced_imdl<V: Clone>(r: AbductionResult<V>) -> IMdl<V> {
    match r {
        AbductionResult::SubGoal(_, _, imdl, _) => imdl,
        AbductionResult::IMdl(imdl) => imdl,
    }
}

/// Abduction from `input` with a model whose composite state can be
/// expanded; none for one that cannot.
fn abduce_ready<
    V: Clone,
    C: Clone,
    E: Fn(&V, &V) -> bool,
    A: Fn(&V) -> Option<Vec<V>>,
    M: Fn(Vec<V>) -> V,
    O: Fn(ArithOp, V, V) -> Option<V>,
    T: Fn(V) -> Option<V>,
    N: Fn(V) -> Option<V>,
    F: Fn(&V) -> Option<String>,
>(
    bm: &BoundModel<V, C>,
    input: &Fact<MdlRightValue<V>>,
    system: &System<V, C>,
    eq: &E,
    as_vec: &A,
    make_vec: &M,
    arith: &O,
    to_entity_id: &T,
    to_number: &N,
    entity_id_of: &F,
) -> (r: Option<AbductionResult<V>>)
    requires
        value_ops_sound(*eq, *as_vec, *make_vec),
        arith_decides(*arith),
        conv_decides(*to_entity_id),
        conv_decides(*to_number),
        forall|v: &V| entity_id_of.requires((v,)),
    ensures
        !cst_ready(bm.model, system.csts@) ==> r is None,
        r is Some ==> abduced_imdl(r->Some_0).model_id == bm.model.model_id,
        r is Some && bm.model.left.pattern is ICst ==> r->Some_0 is SubGoal
            && r->Some_0->SubGoal_1 is Some && r->Some_0->SubGoal_1->Some_0@
            == bm.model.left.pattern->ICst_0.cst_id@,
        abduction_answer(
            *bm,
            *input,
            system.csts@,
            *eq,
            *as_vec,
            *make_vec,
            *arith,
            *to_entity_id,
            *to_number,
            entity_id_of,
            r,
        ),
{
    match &bm.model.left.pattern {
        MdlLeftValue::ICst(icst) => match system.csts.get(&icst.cst_id) {
            None => {
                return None;
            },
            Some(cst) => {
                if !is_expandable(cst, &icst.params) {
                    return None;
                }
            },
        },
        _ => {},
    }
    let r = bm.abduce(input, system, eq, as_vec, make_vec, arith, to_entity_id, to_number, entity_id_of);
    proof {
        if r is Some {
            let res = r->Some_0;
            let found = choose|found: StrMap<V>|
                #[trigger] right_match_outcome(
                    bm.model.right.pattern,
                    bm.bindings@,
                    input.pattern,
                    *eq,
                    *as_vec,
                    *make_vec,
                    PatternMatchResult::True(found),
                ) && abduced(
                    bm.model,
                    computed_after(
                        found@.union_prefer_right(bm.bindings@),
                        bm.model.backward_computed@,
                        *make_vec,
                        *arith,
                        *to_entity_id,
                        *to_number,
                    ),
                    system.csts@,
                    res,
                    entity_id_of,
                );
            assert(abduced_imdl(res).model_id == bm.model.model_id);
        }
    }
    r
}

/// Every ordering of the items of `s`, lexicographic by position: each
/// ordering that starts with `s[0]`, then each that starts with `s[1]`, and
/// so on, the rest of each being an ordering of the other items.
pub open spec fn orderings_of(s: Seq<usize>) -> Seq<Seq<usize>>
    decreases s.len(), s.len() + 1,
{
    if s.len() == 0 {
        seq![Seq::<usize>::empty()]
    } else {
        orderings_led_from(s, 0)
    }
}

/// The orderings of the items of `s` that start with `s[i]`, `s[i + 1]`,
/// and so on (see `orderings_of`).
pub open spec fn orderings_led_from(s: Seq<usize>, i: nat) -> Seq<Seq<usize>>
    decreases s.len(), s.len() - i,
{
    if i >= s.len() {
        Seq::empty()
    } else {
        orderings_of(s.remove(i as int)).map_values(|o: Seq<usize>| seq![s[i as int]] + o)
            + orderings_led_from(s, i + 1)
    }
}

/// The indices `0..n`, in order.
pub open spec fn indices_upto(n: nat) -> Seq<usize> {
    Seq::new(n, |i: int| i as usize)
}

/// The orderings of the indices `0..n`, in the order that
/// `Itertools::permutations` yields them: its `n!` permutations of the
/// range, lexicographic.
pub open spec fn index_orderings(n: nat) -> Seq<Seq<usize>> {
    orderings_of(indices_upto(n))
}

/// Every ordering of the indices `0..n`: `Itertools::permutations` of the
/// range, `n` at a time, collected. The crate documents the permutations
/// as every ordering of the input's items in lexicographic order of
/// position, one empty ordering when there are none; the contract states
/// exactly that (`index_orderings`), and that each is made of the range's
/// indices.
#[verifier::external_body]
fn index_permutations(n: usize) -> (r: Vec<Vec<usize>>)
    ensures
        order_views(r@) == index_orderings(n as nat),
        orders_within(order_views(r@), n as nat),
{
    (0..n).permutations(n).collect()
}

/// Variations of a sub-goal with possible binding assignments: for each
/// choice of entities for the declarations whose bindings the sub-goal's
/// facts use, and each ordering of the facts, the bindings that filling in
/// the bindings of each fact, one by one, from the state's value of its
/// variable gives. If the goal is for a hand and an object both to be at
/// position p, one variation takes p from the hand's current position and
/// another from the object's.
pub fn create_variations_of_sub_goal<
    V: Clone,
    C,
    G: Fn(&String) -> V,
    F: Fn(&V) -> String,
    A: Fn(&V) -> Option<Vec<V>>,
    E: Fn(&V, &V) -> bool,
>(
    goal: &Vec<Fact<MkVal<V>>>,
    sub_goal_entities: Option<&Vec<EntityDeclaration>>,
    system: &System<V, C>,
    entity_value: &G,
    id_of: &F,
    as_vec: &A,
    eq: &E,
) -> (r: Vec<Vec<Fact<MkVal<V>>>>)
    requires
        entity_values_decided(*entity_value),
        ids_decided(*id_of),
        as_vec_reads(*as_vec),
        clones_equal::<V>(),
        forall|x: &V, y: &V| #[trigger] eq.requires((x, y)),
    ensures
        variations_of(
            goal@,
            index_orderings(goal@.len()),
            decls_of(sub_goal_entities),
            system.entities_in_classes@,
            system.current_state.variables@,
            *entity_value,
            *id_of,
            *as_vec,
            *eq,
            r@,
        ),
{
    let orders = index_permutations(goal.len());
    variations_for_orders(goal, &orders, sub_goal_entities, system, entity_value, id_of, as_vec, eq)
}

/// Whether two patterns are equal item by item, values compared by `eq`.
fn params_equal<V, E: Fn(&V, &V) -> bool>(a: &Vec<PatternItem<V>>, b: &Vec<PatternItem<V>>, eq: &E) -> (r: bool)
    requires
        forall|x: &V, y: &V| #[trigger] eq.requires((x, y)),
    ensures
        seqs_equal_answer(a@, b@, *eq, r),
{
    if a.len() != b.len() {
        return false;
    }
    let mut i: usize = 0;
    while i < a.len()
        invariant
            i <= a@.len(),
            a@.len() == b@.len(),
            forall|x: &V, y: &V| #[trigger] eq.requires((x, y)),
            forall|j: int| 0 <= j < i ==> items_equal_answer(#[trigger] a@[j], b@[j], *eq, true),
        decreases a@.len() - i,
    {
        if !items_equal(&a[i], &b[i], eq) {
            assert(items_equal_answer(a@[i as int], b@[i as int], *eq, false));
            return false;
        }
        i = i + 1;
    }
    true
}

/// `hit` is the index of the first observed instantiation that is the same
/// as `ic` (the same state, parameters that `eq` answers equal), each one
/// before it answered different; none where each one is.
pub open spec fn first_cst_answer<V, E: Fn(&V, &V) -> bool>(
    observed: Seq<(ICst<V>, usize)>,
    ic: ICst<V>,
    eq: E,
    hit: Option<int>,
) -> bool {
    &&& hit is Some ==> {
        let j = hit->Some_0;
        &&& 0 <= j < observed.len()
        &&& observed[j].0.cst_id@ == ic.cst_id@
        &&& seqs_equal_answer(observed[j].0.params@, ic.params@, eq, true)
    }
    &&& forall|k: int|
        0 <= k < observed.len() && (hit is None || k < hit->Some_0) ==> (#[trigger] observed[k]).0.cst_id@
            != ic.cst_id@ || seqs_equal_answer(observed[k].0.params@, ic.params@, eq, false)
}

/// `hit` is the index of the first observed goal that stands for `f`, each
/// one before it answered not to; none where each one is.
pub open spec fn first_goal_answer<V: Clone, E: Fn(&V, &V) -> bool, A: Fn(&V) -> Option<Vec<V>>>(
    observed: Seq<(Fact<MkVal<V>>, usize)>,
    f: Fact<MkVal<V>>,
    eq: E,
    as_vec: A,
    hit: Option<int>,
) -> bool {
    &&& hit is Some ==> {
        let j = hit->Some_0;
        &&& 0 <= j < observed.len()
        &&& goal_seen_answer(f.pattern, observed[j].0.pattern, eq, as_vec, true)
    }
    &&& forall|k: int|
        0 <= k < observed.len() && (hit is None || k < hit->Some_0) ==> goal_seen_answer(
            f.pattern,
            (#[trigger] observed[k]).0.pattern,
            eq,
            as_vec,
            false,
        )
}

/// `g` copies the fact `f`.
pub open spec fn fact_copy<V: Clone>(f: Fact<MkVal<V>>, g: Fact<MkVal<V>>) -> bool {
    &&& cloned(f.pattern, g.pattern)
    &&& g.time_range == f.time_range
}

/// Looking at one fact of a sub-goal's variations at `depth` (observed
/// goals `g0` to `g1`, sub-goals `s0` to `s1`): `seen` is the first
/// observed goal that stands for the fact; one observed at this depth or a
/// shallower one leaves everything as it was; otherwise it is removed, if
/// there is one, a copy of the fact is observed at `depth` unless another
/// observed goal (`again`, the first) still stands for it, and a copy of the
/// fact becomes a sub-goal.
pub open spec fn fact_seen_step<V: Clone, E: Fn(&V, &V) -> bool, A: Fn(&V) -> Option<Vec<V>>>(
    f: Fact<MkVal<V>>,
    depth: usize,
    eq: E,
    as_vec: A,
    seen: Option<int>,
    again: Option<int>,
    g0: Seq<(Fact<MkVal<V>>, usize)>,
    s0: Seq<Fact<MkVal<V>>>,
    g1: Seq<(Fact<MkVal<V>>, usize)>,
    s1: Seq<Fact<MkVal<V>>>,
) -> bool {
    &&& first_goal_answer(g0, f, eq, as_vec, seen)
    &&& if seen is Some && g0[seen->Some_0].1 <= depth {
        g1 == g0 && s1 == s0
    } else {
        let gm = if seen is Some {
            g0.remove(seen->Some_0)
        } else {
            g0
        };
        &&& first_goal_answer(gm, f, eq, as_vec, again)
        &&& if again is None {
            &&& g1.len() == gm.len() + 1
            &&& g1.drop_last() == gm
            &&& fact_copy(f, g1.last().0)
            &&& g1.last().1 == depth
        } else {
            g1 == gm
        }
        &&& s1.len() == s0.len() + 1
        &&& s1.drop_last() == s0
        &&& fact_copy(f, s1.last())
    }
}

/// Step `k` of looking at the facts in turn (see `fact_seen_step`).
pub open spec fn fact_seen_at<V: Clone, E: Fn(&V, &V) -> bool, A: Fn(&V) -> Option<Vec<V>>>(
    facts: Seq<Fact<MkVal<V>>>,
    depth: usize,
    eq: E,
    as_vec: A,
    states: Seq<(Seq<(Fact<MkVal<V>>, usize)>, Seq<Fact<MkVal<V>>>)>,
    k: int,
) -> bool {
    exists|seen: Option<int>, again: Option<int>|
        #[trigger] fact_seen_step(
            facts[k],
            depth,
            eq,
            as_vec,
            seen,
            again,
            states[k].0,
            states[k].1,
            states[k + 1].0,
            states[k + 1].1,
        )
}

/// The facts of the groups, one group after another.
pub open spec fn group_facts<V: Clone>(groups: Seq<Vec<Fact<MkVal<V>>>>) -> Seq<Fact<MkVal<V>>>
    decreases groups.len(),
{
    if groups.len() == 0 {
        seq![]
    } else {
        group_facts(groups.drop_last()) + groups.last()@
    }
}

/// The declarations of the composite state `cid` names, none where it
/// names none that the system holds.
pub open spec fn cst_decls<V: Clone>(cid: Option<String>, csts: Map<Seq<char>, Cst<V>>) -> Seq<EntityDeclaration> {
    match cid {
        Some(id) => if csts.contains_key(id@) {
            csts[id@].entities@
        } else {
            seq![]
        },
        None => seq![],
    }
}

/// The observed goals (`g0` to `g1`) and sub-goals (`s0` to `s1`) after
/// looking in turn at each fact of the sub-goal's variations (`vr`), the
/// sub-goal itself first where it holds a concrete value.
pub open spec fn variations_seen<
    V: Clone,
    C,
    G: Fn(&String) -> V,
    F: Fn(&V) -> String,
    A: Fn(&V) -> Option<Vec<V>>,
    E: Fn(&V, &V) -> bool,
>(
    sub_goal: Vec<Fact<MkVal<V>>>,
    cid: Option<String>,
    data: System<V, C>,
    depth: usize,
    entity_value: G,
    id_of: F,
    as_vec: A,
    eq: E,
    vr: Seq<Vec<Fact<MkVal<V>>>>,
    states: Seq<(Seq<(Fact<MkVal<V>>, usize)>, Seq<Fact<MkVal<V>>>)>,
    g0: Seq<(Fact<MkVal<V>>, usize)>,
    s0: Seq<Fact<MkVal<V>>>,
    g1: Seq<(Fact<MkVal<V>>, usize)>,
    s1: Seq<Fact<MkVal<V>>>,
) -> bool {
    let groups = if exists|i: int| 0 <= i < sub_goal@.len() && !item_fully_unbound((#[trigger] sub_goal@[i]).pattern.value) {
        seq![sub_goal] + vr
    } else {
        vr
    };
    let facts = group_facts(groups);
    &&& variations_of(
        sub_goal@,
        index_orderings(sub_goal@.len()),
        cst_decls(cid, data.csts@),
        data.entities_in_classes@,
        data.current_state.variables@,
        entity_value,
        id_of,
        as_vec,
        eq,
        vr,
    )
    &&& states.len() == facts.len() + 1
    &&& states[0] == (g0, s0)
    &&& states.last() == (g1, s1)
    &&& forall|k: int| 0 <= k < facts.len() ==> #[trigger] fact_seen_at(facts, depth, eq, as_vec, states, k)
}

/// The observed instantiations (`c0` to `c1`), observed goals (`g0` to
/// `g1`) and sub-goals (`s0` to `s1`) after recording a sub-goal found at
/// `depth` (see `add_sub_goal`): `chit` is the first observed instantiation
/// the same as the sub-goal's, `cc` the copy of it kept with the new depth.
pub open spec fn sub_goal_witness<
    V: Clone,
    C,
    G: Fn(&String) -> V,
    F: Fn(&V) -> String,
    A: Fn(&V) -> Option<Vec<V>>,
    E: Fn(&V, &V) -> bool,
>(
    sub_goal: Vec<Fact<MkVal<V>>>,
    cid: Option<String>,
    icst: Option<ICst<V>>,
    data: System<V, C>,
    depth: usize,
    entity_value: G,
    id_of: F,
    as_vec: A,
    eq: E,
    chit: Option<int>,
    cc: ICst<V>,
    vr: Seq<Vec<Fact<MkVal<V>>>>,
    states: Seq<(Seq<(Fact<MkVal<V>>, usize)>, Seq<Fact<MkVal<V>>>)>,
    g0: Seq<(Fact<MkVal<V>>, usize)>,
    c0: Seq<(ICst<V>, usize)>,
    s0: Seq<Fact<MkVal<V>>>,
    g1: Seq<(Fact<MkVal<V>>, usize)>,
    c1: Seq<(ICst<V>, usize)>,
    s1: Seq<Fact<MkVal<V>>>,
) -> bool {
    let seen = variations_seen(sub_goal, cid, data, depth, entity_value, id_of, as_vec, eq, vr, states, g0, s0, g1, s1);
    match icst {
        None => c1 == c0 && seen,
        Some(ic) => first_cst_answer(c0, ic, eq, chit) && match chit {
            Some(j) => if c0[j].1 <= depth {
                c1 == c0 && g1 == g0 && s1 == s0
            } else {
                &&& c1 == c0.update(j, (cc, depth))
                &&& cc.cst_id == c0[j].0.cst_id
                &&& items_cloned(c0[j].0.params@, cc.params@)
                &&& seen
            },
            None => c1 == c0.push((ic, depth)) && seen,
        },
    }
}

/// What recording a sub-goal found at `depth` does to the observed lists
/// and the sub-goals (see `sub_goal_witness`).
pub open spec fn sub_goal_added<
    V: Clone,
    C,
    G: Fn(&String) -> V,
    F: Fn(&V) -> String,
    A: Fn(&V) -> Option<Vec<V>>,
    E: Fn(&V, &V) -> bool,
>(
    sub_goal: Vec<Fact<MkVal<V>>>,
    cid: Option<String>,
    icst: Option<ICst<V>>,
    data: System<V, C>,
    depth: usize,
    entity_value: G,
    id_of: F,
    as_vec: A,
    eq: E,
    g0: Seq<(Fact<MkVal<V>>, usize)>,
    c0: Seq<(ICst<V>, usize)>,
    s0: Seq<Fact<MkVal<V>>>,
    g1: Seq<(Fact<MkVal<V>>, usize)>,
    c1: Seq<(ICst<V>, usize)>,
    s1: Seq<Fact<MkVal<V>>>,
) -> bool {
    exists|
        chit: Option<int>,
        cc: ICst<V>,
        vr: Seq<Vec<Fact<MkVal<V>>>>,
        states: Seq<(Seq<(Fact<MkVal<V>>, usize)>, Seq<Fact<MkVal<V>>>)>,
    |
        #[trigger] sub_goal_witness(
            sub_goal,
            cid,
            icst,
            data,
            depth,
            entity_value,
            id_of,
            as_vec,
            eq,
            chit,
            cc,
            vr,
            states,
            g0,
            c0,
            s0,
            g1,
            c1,
            s1,
        )
}

/// An index as an integer.
pub open spec fn opt_int(r: Option<usize>) -> Option<int> {
    match r {
        Some(j) => Some(j as int),
        None => None,
    }
}

/// The index of the first observed composite state instantiation that is
/// the same as `icst`: the same state and parameters that `eq` answers
/// equal.
fn find_observed_cst<V, E: Fn(&V, &V) -> bool>(
    observed: &Vec<(ICst<V>, usize)>,
    icst: &ICst<V>,
    eq: &E,
) -> (r: Option<usize>)
    requires
        forall|x: &V, y: &V| #[trigger] eq.requires((x, y)),
    ensures
        first_cst_answer(observed@, *icst, *eq, opt_int(r)),
{
    let mut i: usize = 0;
    while i < observed.len()
        invariant
            i <= observed@.len(),
            forall|x: &V, y: &V| #[trigger] eq.requires((x, y)),
            forall|j: int|
                0 <= j < i ==> (#[trigger] observed@[j]).0.cst_id@ != icst.cst_id@
                    || seqs_equal_answer(observed@[j].0.params@, icst.params@, *eq, false),
        decreases observed@.len() - i,
    {
        if observed[i].0.cst_id == icst.cst_id {
            if params_equal(&observed[i].0.params, &icst.params, eq) {
                return Some(i);
            }
        }
        i = i + 1;
    }
    None
}

/// Whether an observed goal `b` stands for the goal `a`: the same variable,
/// entities of the same kind, and patterns that match.
pub open spec fn goal_seen_answer<V, E: Fn(&V, &V) -> bool, A: Fn(&V) -> Option<Vec<V>>>(
    a: MkVal<V>,
    b: MkVal<V>,
    eq: E,
    as_vec: A,
    r: bool,
) -> bool {
    if a.var_name@ == b.var_name@ && (a.entity_id is EntityId) == (b.entity_id is EntityId) {
        if r {
            entities_agree(a.entity_id, b.entity_id) && items_compare_answer(a.value, b.value, true, eq, as_vec, true)
        } else {
            !entities_agree(a.entity_id, b.entity_id) || items_compare_answer(a.value, b.value, true, eq, as_vec, false)
        }
    } else {
        !r
    }
}

/// The index of the first observed goal that stands for `goal`.
fn find_observed_goal<V: Clone, E: Fn(&V, &V) -> bool, A: Fn(&V) -> Option<Vec<V>>>(
    observed: &Vec<(Fact<MkVal<V>>, usize)>,
    goal: &Fact<MkVal<V>>,
    eq: &E,
    as_vec: &A,
) -> (r: Option<usize>)
    requires
        value_ops_callable(*eq, *as_vec),
    ensures
        first_goal_answer(observed@, *goal, *eq, *as_vec, opt_int(r)),
{
    let mut i: usize = 0;
    while i < observed.len()
        invariant
            i <= observed@.len(),
            value_ops_callable(*eq, *as_vec),
            forall|j: int|
                0 <= j < i ==> goal_seen_answer(
                    goal.pattern,
                    (#[trigger] observed@[j]).0.pattern,
                    *eq,
                    *as_vec,
                    false,
                ),
        decreases observed@.len() - i,
    {
        let other = &observed[i].0.pattern;
        let same_kind = match (&goal.pattern.entity_id, &other.entity_id) {
            (EntityPatternValue::EntityId(_), EntityPatternValue::EntityId(_)) => true,
            (EntityPatternValue::Binding(_), EntityPatternValue::Binding(_)) => true,
            _ => false,
        };
        if same_kind && goal.pattern.var_name == other.var_name {
            if goal.pattern.matches_mk_val(other, eq, as_vec) {
                return Some(i);
            }
        }
        i = i + 1;
    }
    None
}

/// Whether some fact of the sub-goal holds a concrete value.
fn has_concrete_value<V: Clone>(facts: &Vec<Fact<MkVal<V>>>) -> (r: bool)
    ensures
        r == exists|i: int| 0 <= i < facts@.len() && !item_fully_unbound((#[trigger] facts@[i]).pattern.value),
{
    let mut i: usize = 0;
    while i < facts.len()
        invariant
            i <= facts@.len(),
            forall|j: int| 0 <= j < i ==> item_fully_unbound((#[trigger] facts@[j]).pattern.value),
        decreases facts@.len() - i,
    {
        if !facts[i].pattern.value.is_fully_unbound() {
            return true;
        }
        i = i + 1;
    }
    false
}

/// The facts of the first `i` groups come first among the facts of all.
proof fn lemma_group_facts_prefix<V: Clone>(groups: Seq<Vec<Fact<MkVal<V>>>>, i: int)
    requires
        0 <= i <= groups.len(),
    ensures
        group_facts(groups.take(i)).len() <= group_facts(groups).len(),
        forall|k: int|
            0 <= k < group_facts(groups.take(i)).len() ==> #[trigger] group_facts(groups.take(i))[k]
                == group_facts(groups)[k],
        i < groups.len() ==> group_facts(groups.take(i + 1)) == group_facts(groups.take(i)) + groups[i]@,
    decreases groups.len() - i,
{
    if i < groups.len() {
        assert(groups.take(i + 1).drop_last() =~= groups.take(i));
        lemma_group_facts_prefix(groups, i + 1);
        let a = group_facts(groups.take(i));
        let b = group_facts(groups.take(i + 1));
        assert(b == a + groups[i]@);
        assert forall|k: int| 0 <= k < a.len() implies #[trigger] a[k] == group_facts(groups)[k] by {
            assert(b[k] == a[k]);
        }
    } else {
        assert(groups.take(i) =~= groups);
    }
}

/// Records a sub-goal found at `depth`: a composite state instantiation
/// seen before at this depth or a shallower one ends it; otherwise each fact
/// of the sub-goal's variations (the sub-goal itself first where it holds a
/// concrete value) not observed at this depth or a shallower one becomes a
/// sub-goal to look at next, and is observed at `depth`.
fn add_sub_goal<
    V: Clone,
    C,
    G: Fn(&String) -> V,
    F: Fn(&V) -> String,
    A: Fn(&V) -> Option<Vec<V>>,
    E: Fn(&V, &V) -> bool,
>(
    sub_goal: Vec<Fact<MkVal<V>>>,
    cst_id: Option<String>,
    icst: Option<ICst<V>>,
    data: &System<V, C>,
    observed_goals: &mut Vec<(Fact<MkVal<V>>, usize)>,
    observed_csts: &mut Vec<(ICst<V>, usize)>,
    depth: usize,
    subgoals: &mut Vec<Fact<MkVal<V>>>,
    entity_value: &G,
    id_of: &F,
    as_vec: &A,
    eq: &E,
)
    requires
        entity_values_decided(*entity_value),
        ids_decided(*id_of),
        as_vec_reads(*as_vec),
        clones_equal::<V>(),
        value_ops_callable(*eq, *as_vec),
    ensures
        final(subgoals)@.len() >= old(subgoals)@.len(),
        final(subgoals)@.subrange(0, old(subgoals)@.len() as int) == old(subgoals)@,
        sub_goal_added(
            sub_goal,
            cst_id,
            icst,
            *data,
            depth,
            *entity_value,
            *id_of,
            *as_vec,
            *eq,
            old(observed_goals)@,
            old(observed_csts)@,
            old(subgoals)@,
            final(observed_goals)@,
            final(observed_csts)@,
            final(subgoals)@,
        ),
{
    let ghost g0 = observed_goals@;
    let ghost c0 = observed_csts@;
    let ghost s0 = subgoals@;
    let ghost gsub = sub_goal;
    let ghost gcid = cst_id;
    let ghost gicst = icst;
    let ghost mut chit: Option<int> = None;
    let ghost mut cc: ICst<V> = vstd::pervasive::arbitrary();
    match icst {
        Some(ic) => {
            let found = find_observed_cst(observed_csts, &ic, eq);
            proof {
                chit = opt_int(found);
            }
            match found {
                Some(j) => {
                    if observed_csts[j].1 <= depth {
                        assert(sub_goal_witness(
                            gsub,
                            gcid,
                            gicst,
                            *data,
                            depth,
                            *entity_value,
                            *id_of,
                            *as_vec,
                            *eq,
                            chit,
                            cc,
                            vstd::pervasive::arbitrary(),
                            vstd::pervasive::arbitrary(),
                            g0,
                            c0,
                            s0,
                            observed_goals@,
                            observed_csts@,
                            subgoals@,
                        ));
                        assert(subgoals@.subrange(0, s0.len() as int) =~= s0);
                        return;
                    }
                    let c = observed_csts[j].0.clone();
                    proof {
                        cc = c;
                    }
                    observed_csts.set(j, (c, depth));
                },
                None => {
                    observed_csts.push((ic, depth));
                },
            }
        },
        None => {},
    }
    let entities: Option<&Vec<EntityDeclaration>> = match &cst_id {
        Some(id) => match data.csts.get(id) {
            Some(c) => Some(&c.entities),
            None => None,
        },
        None => None,
    };
    assert(decls_of(entities) == cst_decls(cst_id, data.csts@));
    let mut all_sub_goals = create_variations_of_sub_goal(&sub_goal, entities, data, entity_value, id_of, as_vec, eq);
    let ghost vr = all_sub_goals@;
    if has_concrete_value(&sub_goal) {
        all_sub_goals.insert(0, sub_goal);
        assert(all_sub_goals@ =~= seq![gsub] + vr);
    }
    let ghost groups = all_sub_goals@;
    let ghost facts = group_facts(groups);
    let ghost mut states: Seq<(Seq<(Fact<MkVal<V>>, usize)>, Seq<Fact<MkVal<V>>>)> = seq![(observed_goals@, subgoals@)];
    proof {
        lemma_group_facts_prefix(groups, 0);
        assert(groups.take(0) =~= Seq::<Vec<Fact<MkVal<V>>>>::empty());
    }
    let ghost start = subgoals@;
    let mut i: usize = 0;
    while i < all_sub_goals.len()
        invariant
            i <= all_sub_goals@.len(),
            groups == all_sub_goals@,
            facts == group_facts(groups),
            value_ops_callable(*eq, *as_vec),
            subgoals@.len() >= start.len(),
            subgoals@.subrange(0, start.len() as int) == start,
            states.len() == group_facts(groups.take(i as int)).len() + 1,
            group_facts(groups.take(i as int)).len() <= facts.len(),
            states[0] == (g0, start),
            states.last() == (observed_goals@, subgoals@),
            forall|k: int|
                0 <= k < group_facts(groups.take(i as int)).len() ==> #[trigger] fact_seen_at(
                    facts,
                    depth,
                    *eq,
                    *as_vec,
                    states,
                    k,
                ),
        decreases all_sub_goals@.len() - i,
    {
        proof {
            lemma_group_facts_prefix(groups, i as int);
            lemma_group_facts_prefix(groups, i + 1);
        }
        let ghost base = group_facts(groups.take(i as int)).len();
        let group = &all_sub_goals[i];
        assert forall|x: int| 0 <= x < group@.len() implies #[trigger] facts[base + x] == group@[x] by {
            let t = group_facts(groups.take(i + 1));
            assert(t == group_facts(groups.take(i as int)) + groups[i as int]@);
            assert(t[base + x] == group@[x]);
            assert(t[base + x] == facts[base + x]);
        }
        let mut k: usize = 0;
        while k < group.len()
            invariant
                k <= group@.len(),
                i < groups.len(),
                *group == groups[i as int],
                base + group@.len() <= facts.len(),
                forall|x: int| 0 <= x < group@.len() ==> #[trigger] facts[base + x] == group@[x],
                value_ops_callable(*eq, *as_vec),
                subgoals@.len() >= start.len(),
                subgoals@.subrange(0, start.len() as int) == start,
                states.len() == base + k + 1,
                states[0] == (g0, start),
                states.last() == (observed_goals@, subgoals@),
                forall|x: int|
                    0 <= x < base + k ==> #[trigger] fact_seen_at(facts, depth, *eq, *as_vec, states, x),
            decreases group@.len() - k,
        {
            let f = &group[k];
            assert(facts[base + k] == *f);
            let ghost gb = observed_goals@;
            let ghost sb = subgoals@;
            let seen = find_observed_goal(observed_goals, f, eq, as_vec);
            let ghost gseen = opt_int(seen);
            let ghost mut gagain: Option<int> = None;
            let skip = match seen {
                Some(j) => observed_goals[j].1 <= depth,
                None => false,
            };
            if !skip {
                match seen {
                    Some(j) => {
                        observed_goals.remove(j);
                    },
                    None => {},
                }
                let again = find_observed_goal(observed_goals, f, eq, as_vec);
                proof {
                    gagain = opt_int(again);
                }
                if again.is_none() {
                    let ghost gm = observed_goals@;
                    let copy = f.clone();
                    observed_goals.push((copy, depth));
                    assert(observed_goals@.drop_last() =~= gm);
                }
                let ghost before = subgoals@;
                let copy = f.clone();
                subgoals.push(copy);
                assert(subgoals@.subrange(0, start.len() as int) =~= before.subrange(0, start.len() as int));
                assert(subgoals@.drop_last() =~= before);
            }
            proof {
                assert(fact_seen_step(*f, depth, *eq, *as_vec, gseen, gagain, gb, sb, observed_goals@, subgoals@));
                let ns = states.push((observed_goals@, subgoals@));
                assert forall|x: int| 0 <= x < base + k + 1 implies #[trigger] fact_seen_at(
                    facts,
                    depth,
                    *eq,
                    *as_vec,
                    ns,
                    x,
                ) by {
                    assert(ns[x] == states[x]);
                    if x < base + k {
                        assert(ns[x + 1] == states[x + 1]);
                        assert(fact_seen_at(facts, depth, *eq, *as_vec, states, x));
                    } else {
                        assert(facts[x] == *f);
                        assert(fact_seen_step(
                            facts[x],
                            depth,
                            *eq,
                            *as_vec,
                            gseen,
                            gagain,
                            ns[x].0,
                            ns[x].1,
                            ns[x + 1].0,
                            ns[x + 1].1,
                        ));
                    }
                }
                states = ns;
            }
            k = k + 1;
        }
        i = i + 1;
    }
    proof {
        assert(groups.take(groups.len() as int) =~= groups);
        assert(sub_goal_witness(
            gsub,
            gcid,
            gicst,
            *data,
            depth,
            *entity_value,
            *id_of,
            *as_vec,
            *eq,
            chit,
            cc,
            vr,
            states,
            g0,
            c0,
            s0,
            observed_goals@,
            observed_csts@,
            subgoals@,
        ));
    }
}

/// What abduction from `input` with the bound model `bm` may give: nothing
/// for a model whose composite state cannot be expanded, and otherwise what
/// `BoundModel::abduce` promises.
pub open spec fn abduction_answer<
    V: Clone,
    C,
    E: Fn(&V, &V) -> bool,
    A: Fn(&V) -> Option<Vec<V>>,
    M: Fn(Vec<V>) -> V,
    O: Fn(ArithOp, V, V) -> Option<V>,
    T: Fn(V) -> Option<V>,
    N: Fn(V) -> Option<V>,
    F: Fn(&V) -> Option<String>,
>(
    bm: BoundModel<V, C>,
    input: Fact<MdlRightValue<V>>,
    csts: Map<Seq<char>, Cst<V>>,
    eq: E,
    as_vec: A,
    make_vec: M,
    arith: O,
    to_entity_id: T,
    to_number: N,
    entity_id_of: F,
    r: Option<AbductionResult<V>>,
) -> bool {
    if !cst_ready(bm.model, csts) {
        r is None
    } else {
        match r {
            None => right_match_outcome(
                bm.model.right.pattern,
                bm.bindings@,
                input.pattern,
                eq,
                as_vec,
                make_vec,
                PatternMatchResult::False,
            ),
            Some(res) => exists|found: StrMap<V>|
                #[trigger] right_match_outcome(
                    bm.model.right.pattern,
                    bm.bindings@,
                    input.pattern,
                    eq,
                    as_vec,
                    make_vec,
                    PatternMatchResult::True(found),
                ) && abduced(
                    bm.model,
                    computed_after(
                        found@.union_prefer_right(bm.bindings@),
                        bm.model.backward_computed@,
                        make_vec,
                        arith,
                        to_entity_id,
                        to_number,
                    ),
                    csts,
                    res,
                    entity_id_of,
                ),
        }
    }
}

/// `hit` is the index of the first instantiation of `inst` that `gi`
/// matches, each one before it answered different; none where each one is.
pub open spec fn first_match_answer<V: Clone, E: Fn(&V, &V) -> bool, A: Fn(&V) -> Option<Vec<V>>>(
    inst: Seq<IMdl<V>>,
    gi: IMdl<V>,
    eq: E,
    as_vec: A,
    hit: Option<int>,
) -> bool {
    match hit {
        Some(j) => {
            &&& 0 <= j < inst.len()
            &&& imdls_match_answer(inst[j], gi, eq, as_vec, true)
            &&& forall|k: int| 0 <= k < j ==> imdls_match_answer(#[trigger] inst[k], gi, eq, as_vec, false)
        },
        None => forall|k: int| 0 <= k < inst.len() ==> imdls_match_answer(#[trigger] inst[k], gi, eq, as_vec, false),
    }
}

/// Whether the state already holds the value that the right-hand side
/// `rhs` sets under the bindings `b` (`ans`): its value and entity known
/// under `b`, the state holding that variable, and `eq` answering the held
/// value equal to it.
pub open spec fn holds_value_answer<V, M: Fn(Vec<V>) -> V, I: Fn(&V) -> String, E: Fn(&V, &V) -> bool>(
    rhs: MkVal<V>,
    b: Map<Seq<char>, V>,
    vars: Map<(Seq<char>, Seq<char>), V>,
    make_vec: M,
    id_of: I,
    eq: E,
    ans: bool,
) -> bool {
    match (value_with_bindings(rhs.value, b, make_vec), fact_key(rhs, b, id_of)) {
        (Some(v), Some(k)) => if vars.contains_key(k) {
            eq.ensures((&vars[k], &v), ans)
        } else {
            !ans
        },
        _ => !ans,
    }
}

/// `after` is `before` with a copy of `gi` found at `depth` added.
pub open spec fn pushed_requirement<V: Clone>(
    before: Seq<(IMdl<V>, usize)>,
    after: Seq<(IMdl<V>, usize)>,
    gi: IMdl<V>,
    depth: usize,
) -> bool {
    &&& after.len() == before.len() + 1
    &&& after.drop_last() == before
    &&& imdl_cloned(gi, after.last().0)
    &&& after.last().1 == depth
}

/// The instantiation `imdl` as the right-hand side abduction from a
/// requirement model starts from, at any time.
pub open spec fn imdl_input<V: Clone>(imdl: IMdl<V>) -> Fact<MdlRightValue<V>> {
    Fact {
        pattern: MdlRightValue::IMdl(imdl),
        time_range: TimePatternRange { from: TimePatternValue::Any, to: TimePatternValue::Any },
    }
}

/// The requirement models of the system.
pub open spec fn req_models_of<V: Clone, C>(models: StrMap<Mdl<V, C>>) -> Seq<Mdl<V, C>> {
    models_where(models, |m: Mdl<V, C>| model_of_kind(m, false, true, false, false))
}

/// Step `k` of looking at the copies of the requirement models for
/// sub-goals that lead to `imdl`: `rbm`, a copy with no bindings, abduces
/// `rres` from it, and a sub-goal it gives is recorded (see
/// `sub_goal_added`).
pub open spec fn req_model_witness<
    V: Clone,
    C: Clone,
    E: Fn(&V, &V) -> bool,
    A: Fn(&V) -> Option<Vec<V>>,
    M: Fn(Vec<V>) -> V,
    O: Fn(ArithOp, V, V) -> Option<V>,
    T: Fn(V) -> Option<V>,
    N: Fn(V) -> Option<V>,
    F: Fn(&V) -> Option<String>,
    I: Fn(&V) -> String,
    G: Fn(&String) -> V,
>(
    copies: Seq<Mdl<V, C>>,
    imdl: IMdl<V>,
    data: System<V, C>,
    depth: usize,
    eq: E,
    as_vec: A,
    make_vec: M,
    arith: O,
    to_entity_id: T,
    to_number: N,
    entity_id_of: F,
    id_of: I,
    entity_value: G,
    trace: Seq<(Seq<(Fact<MkVal<V>>, usize)>, Seq<(ICst<V>, usize)>, Seq<Fact<MkVal<V>>>)>,
    k: int,
    rbm: BoundModel<V, C>,
    rres: Option<AbductionResult<V>>,
) -> bool {
        {
            &&& mdl_cloned(copies[k], rbm.model)
            &&& rbm.bindings@ == Map::<Seq<char>, V>::empty()
            &&& abduction_answer(
                rbm,
                imdl_input(imdl),
                data.csts@,
                eq,
                as_vec,
                make_vec,
                arith,
                to_entity_id,
                to_number,
                entity_id_of,
                rres,
            )
            &&& match rres {
                Some(AbductionResult::SubGoal(sg, cid, _, icst)) => sub_goal_added(
                    sg,
                    cid,
                    icst,
                    data,
                    depth,
                    entity_value,
                    id_of,
                    as_vec,
                    eq,
                    trace[k].0,
                    trace[k].1,
                    trace[k].2,
                    trace[k + 1].0,
                    trace[k + 1].1,
                    trace[k + 1].2,
                ),
                _ => trace[k + 1] == trace[k],
            }
        }
}

/// Step `k` of looking at the copies of the requirement models (see
/// `req_model_witness`).
pub open spec fn req_model_step_at<
    V: Clone,
    C: Clone,
    E: Fn(&V, &V) -> bool,
    A: Fn(&V) -> Option<Vec<V>>,
    M: Fn(Vec<V>) -> V,
    O: Fn(ArithOp, V, V) -> Option<V>,
    T: Fn(V) -> Option<V>,
    N: Fn(V) -> Option<V>,
    F: Fn(&V) -> Option<String>,
    I: Fn(&V) -> String,
    G: Fn(&String) -> V,
>(
    copies: Seq<Mdl<V, C>>,
    imdl: IMdl<V>,
    data: System<V, C>,
    depth: usize,
    eq: E,
    as_vec: A,
    make_vec: M,
    arith: O,
    to_entity_id: T,
    to_number: N,
    entity_id_of: F,
    id_of: I,
    entity_value: G,
    trace: Seq<(Seq<(Fact<MkVal<V>>, usize)>, Seq<(ICst<V>, usize)>, Seq<Fact<MkVal<V>>>)>,
    k: int,
) -> bool {
    exists|rbm: BoundModel<V, C>, rres: Option<AbductionResult<V>>|
        #[trigger] req_model_witness(
            copies,
            imdl,
            data,
            depth,
            eq,
            as_vec,
            make_vec,
            arith,
            to_entity_id,
            to_number,
            entity_id_of,
            id_of,
            entity_value,
            trace,
            k,
            rbm,
            rres,
        )
}

/// `copies` copies the requirement models in order, and `trace` holds the
/// observed lists and sub-goals before each and after the last (see
/// `req_model_step_at`).
pub open spec fn req_models_trace<
    V: Clone,
    C: Clone,
    E: Fn(&V, &V) -> bool,
    A: Fn(&V) -> Option<Vec<V>>,
    M: Fn(Vec<V>) -> V,
    O: Fn(ArithOp, V, V) -> Option<V>,
    T: Fn(V) -> Option<V>,
    N: Fn(V) -> Option<V>,
    F: Fn(&V) -> Option<String>,
    I: Fn(&V) -> String,
    G: Fn(&String) -> V,
>(
    copies: Seq<Mdl<V, C>>,
    trace: Seq<(Seq<(Fact<MkVal<V>>, usize)>, Seq<(ICst<V>, usize)>, Seq<Fact<MkVal<V>>>)>,
    imdl: IMdl<V>,
    data: System<V, C>,
    depth: usize,
    eq: E,
    as_vec: A,
    make_vec: M,
    arith: O,
    to_entity_id: T,
    to_number: N,
    entity_id_of: F,
    id_of: I,
    entity_value: G,
    g0: Seq<(Fact<MkVal<V>>, usize)>,
    c0: Seq<(ICst<V>, usize)>,
    s0: Seq<Fact<MkVal<V>>>,
    g1: Seq<(Fact<MkVal<V>>, usize)>,
    c1: Seq<(ICst<V>, usize)>,
    s1: Seq<Fact<MkVal<V>>>,
) -> bool {
    &&& copies.len() == req_models_of(data.models).len()
    &&& forall|i: int| 0 <= i < copies.len() ==> mdl_cloned(req_models_of(data.models)[i], #[trigger] copies[i])
    &&& trace.len() == copies.len() + 1
    &&& trace[0] == (g0, c0, s0)
    &&& trace.last() == (g1, c1, s1)
    &&& forall|k: int|
        0 <= k < copies.len() ==> #[trigger] req_model_step_at(
            copies,
            imdl,
            data,
            depth,
            eq,
            as_vec,
            make_vec,
            arith,
            to_entity_id,
            to_number,
            entity_id_of,
            id_of,
            entity_value,
            trace,
            k,
        )
}


/// The sub-goals that an abduction result leaves, recorded at `depth`: a
/// sub-goal itself, or, for an instantiation of another model, those of the
/// requirement models that lead to it, copied in order.
pub open spec fn sub_goals_of<
    V: Clone,
    C: Clone,
    E: Fn(&V, &V) -> bool,
    A: Fn(&V) -> Option<Vec<V>>,
    M: Fn(Vec<V>) -> V,
    O: Fn(ArithOp, V, V) -> Option<V>,
    T: Fn(V) -> Option<V>,
    N: Fn(V) -> Option<V>,
    F: Fn(&V) -> Option<String>,
    I: Fn(&V) -> String,
    G: Fn(&String) -> V,
>(
    x: AbductionResult<V>,
    data: System<V, C>,
    depth: usize,
    eq: E,
    as_vec: A,
    make_vec: M,
    arith: O,
    to_entity_id: T,
    to_number: N,
    entity_id_of: F,
    id_of: I,
    entity_value: G,
    g0: Seq<(Fact<MkVal<V>>, usize)>,
    c0: Seq<(ICst<V>, usize)>,
    s0: Seq<Fact<MkVal<V>>>,
    g1: Seq<(Fact<MkVal<V>>, usize)>,
    c1: Seq<(ICst<V>, usize)>,
    s1: Seq<Fact<MkVal<V>>>,
) -> bool {
    match x {
        AbductionResult::SubGoal(sg, cid, _, icst) => sub_goal_added(
            sg,
            cid,
            icst,
            data,
            depth,
            entity_value,
            id_of,
            as_vec,
            eq,
            g0,
            c0,
            s0,
            g1,
            c1,
            s1,
        ),
        AbductionResult::IMdl(imdl) => exists|
            copies: Seq<Mdl<V, C>>,
            trace: Seq<(Seq<(Fact<MkVal<V>>, usize)>, Seq<(ICst<V>, usize)>, Seq<Fact<MkVal<V>>>)>,
        |
            #[trigger] req_models_trace(
                copies,
                trace,
                imdl,
                data,
                depth,
                eq,
                as_vec,
                make_vec,
                arith,
                to_entity_id,
                to_number,
                entity_id_of,
                id_of,
                entity_value,
                g0,
                c0,
                s0,
                g1,
                c1,
                s1,
            ),
    }
}

/// The requirements (`before` to `after`), the reached flag (`was` to
/// `now`), the observed goals and instantiations (`g0`, `c0` to `g1`, `c1`)
/// and the sub-goals (`s0` to `s1`) after looking at one model: `bm` a copy
/// of the model with no bindings, `res` what abduction from `input` gave,
/// `hit` the first instantiation reachable from the state that the abduced
/// instantiation matches, and `gbm` that instantiation instantiated. A
/// reached instantiation is a requirement and marks the goal reached;
/// otherwise, unless the state already holds the value that its right-hand
/// side sets, one of a causal model is a requirement and the abduction's
/// sub-goals are recorded (see `sub_goals_of`).
pub open spec fn requirement_witness<
    V: Clone,
    C: Clone,
    E: Fn(&V, &V) -> bool,
    A: Fn(&V) -> Option<Vec<V>>,
    M: Fn(Vec<V>) -> V,
    O: Fn(ArithOp, V, V) -> Option<V>,
    T: Fn(V) -> Option<V>,
    N: Fn(V) -> Option<V>,
    F: Fn(&V) -> Option<String>,
    I: Fn(&V) -> String,
    G: Fn(&String) -> V,
>(
    model: Mdl<V, C>,
    bm: BoundModel<V, C>,
    res: Option<AbductionResult<V>>,
    hit: Option<int>,
    gbm: BoundModel<V, C>,
    input: Fact<MdlRightValue<V>>,
    inst: Seq<IMdl<V>>,
    data: System<V, C>,
    depth: usize,
    eq: E,
    as_vec: A,
    make_vec: M,
    arith: O,
    to_entity_id: T,
    to_number: N,
    entity_id_of: F,
    id_of: I,
    entity_value: G,
    before: Seq<(IMdl<V>, usize)>,
    after: Seq<(IMdl<V>, usize)>,
    was: bool,
    now: bool,
    g0: Seq<(Fact<MkVal<V>>, usize)>,
    c0: Seq<(ICst<V>, usize)>,
    s0: Seq<Fact<MkVal<V>>>,
    g1: Seq<(Fact<MkVal<V>>, usize)>,
    c1: Seq<(ICst<V>, usize)>,
    s1: Seq<Fact<MkVal<V>>>,
) -> bool {
    let unchanged = g1 == g0 && c1 == c0 && s1 == s0;
    &&& mdl_cloned(model, bm.model)
    &&& bm.bindings@ == Map::<Seq<char>, V>::empty()
    &&& abduction_answer(bm, input, data.csts@, eq, as_vec, make_vec, arith, to_entity_id, to_number, entity_id_of, res)
    &&& match res {
        None => after == before && now == was && unchanged,
        Some(x) => {
            let gi = abduced_imdl(x);
            &&& first_match_answer(inst, gi, eq, as_vec, hit)
            &&& match hit {
                Some(_) => now && pushed_requirement(before, after, gi, depth) && unchanged,
                None => now == was && if !data.models@.contains_key(gi.model_id@) {
                    after == before && unchanged
                } else {
                    &&& instantiated_as(gi, Map::empty(), data.models@, gbm, make_vec, arith, to_entity_id, to_number)
                    &&& match gbm.model.right.pattern {
                        MdlRightValue::MkVal(rhs) => if holds_value_answer(
                            rhs,
                            gbm.bindings@,
                            data.current_state.variables@,
                            make_vec,
                            id_of,
                            eq,
                            true,
                        ) {
                            after == before && unchanged
                        } else {
                            &&& if (gbm.model.left.pattern is Command || gbm.model.left.pattern is IMdl) {
                                pushed_requirement(before, after, gi, depth)
                            } else {
                                after == before
                            }
                            &&& sub_goals_of(
                                x,
                                data,
                                depth,
                                eq,
                                as_vec,
                                make_vec,
                                arith,
                                to_entity_id,
                                to_number,
                                entity_id_of,
                                id_of,
                                entity_value,
                                g0,
                                c0,
                                s0,
                                g1,
                                c1,
                                s1,
                            )
                        },
                        _ => after == before && unchanged,
                    }
                },
            }
        },
    }
}

/// The requirements, reached flag, observed lists and sub-goals after
/// looking at one more model (see `requirement_witness`).
pub open spec fn requirement_step<
    V: Clone,
    C: Clone,
    E: Fn(&V, &V) -> bool,
    A: Fn(&V) -> Option<Vec<V>>,
    M: Fn(Vec<V>) -> V,
    O: Fn(ArithOp, V, V) -> Option<V>,
    T: Fn(V) -> Option<V>,
    N: Fn(V) -> Option<V>,
    F: Fn(&V) -> Option<String>,
    I: Fn(&V) -> String,
    G: Fn(&String) -> V,
>(
    model: Mdl<V, C>,
    input: Fact<MdlRightValue<V>>,
    inst: Seq<IMdl<V>>,
    data: System<V, C>,
    depth: usize,
    eq: E,
    as_vec: A,
    make_vec: M,
    arith: O,
    to_entity_id: T,
    to_number: N,
    entity_id_of: F,
    id_of: I,
    entity_value: G,
    before: Seq<(IMdl<V>, usize)>,
    after: Seq<(IMdl<V>, usize)>,
    was: bool,
    now: bool,
    g0: Seq<(Fact<MkVal<V>>, usize)>,
    c0: Seq<(ICst<V>, usize)>,
    s0: Seq<Fact<MkVal<V>>>,
    g1: Seq<(Fact<MkVal<V>>, usize)>,
    c1: Seq<(ICst<V>, usize)>,
    s1: Seq<Fact<MkVal<V>>>,
) -> bool {
    exists|bm: BoundModel<V, C>, res: Option<AbductionResult<V>>, hit: Option<int>, gbm: BoundModel<V, C>|
        #[trigger] requirement_witness(
            model,
            bm,
            res,
            hit,
            gbm,
            input,
            inst,
            data,
            depth,
            eq,
            as_vec,
            make_vec,
            arith,
            to_entity_id,
            to_number,
            entity_id_of,
            id_of,
            entity_value,
            before,
            after,
            was,
            now,
            g0,
            c0,
            s0,
            g1,
            c1,
            s1,
        )
}

/// The requirements that abduction from the goal with one model gives,
/// and the sub-goals it leaves: the model's instantiation is a requirement
/// that the current state reaches where it matches an instantiation
/// `instantiable` holds (which `reached` records); otherwise, unless the
/// state already holds the value that its right-hand side sets, a causal
/// model's instantiation is a requirement, and the left-hand side (for an
/// instantiation of another model, the composite states of the requirement
/// models that lead to it) gives sub-goals.
fn requirements_from_model<
    V: Clone,
    C: Clone,
    E: Fn(&V, &V) -> bool,
    A: Fn(&V) -> Option<Vec<V>>,
    M: Fn(Vec<V>) -> V,
    O: Fn(ArithOp, V, V) -> Option<V>,
    T: Fn(V) -> Option<V>,
    N: Fn(V) -> Option<V>,
    F: Fn(&V) -> Option<String>,
    I: Fn(&V) -> String,
    G: Fn(&String) -> V,
>(
    model: &Mdl<V, C>,
    input: &Fact<MdlRightValue<V>>,
    instantiable: &Vec<IMdl<V>>,
    data: &System<V, C>,
    observed_goals: &mut Vec<(Fact<MkVal<V>>, usize)>,
    observed_csts: &mut Vec<(ICst<V>, usize)>,
    depth: usize,
    reqs: &mut Vec<(IMdl<V>, usize)>,
    subgoals: &mut Vec<Fact<MkVal<V>>>,
    reached: &mut bool,
    eq: &E,
    as_vec: &A,
    make_vec: &M,
    arith: &O,
    to_entity_id: &T,
    to_number: &N,
    entity_id_of: &F,
    id_of: &I,
    entity_value: &G,
)
    requires
        value_ops_sound(*eq, *as_vec, *make_vec),
        arith_decides(*arith),
        conv_decides(*to_entity_id),
        conv_decides(*to_number),
        forall|v: &V| entity_id_of.requires((v,)),
        ids_decided(*id_of),
        entity_values_decided(*entity_value),
    ensures
        final(reqs)@.len() >= old(reqs)@.len(),
        final(reqs)@.subrange(0, old(reqs)@.len() as int) == old(reqs)@,
        forall|i: int|
            old(reqs)@.len() <= i < final(reqs)@.len() ==> (#[trigger] final(reqs)@[i]).1 == depth
                && final(reqs)@[i].0.model_id@ == model.model_id@,
        *final(reached) ==> *old(reached) || exists|i: int, j: int|
            old(reqs)@.len() <= i < final(reqs)@.len() && 0 <= j < instantiable@.len()
                && (#[trigger] instantiable@[j]).model_id@ == (#[trigger] final(reqs)@[i]).0.model_id@,
        requirement_step(
            *model,
            *input,
            instantiable@,
            *data,
            depth,
            *eq,
            *as_vec,
            *make_vec,
            *arith,
            *to_entity_id,
            *to_number,
            entity_id_of,
            *id_of,
            *entity_value,
            old(reqs)@,
            final(reqs)@,
            *old(reached),
            *final(reached),
            old(observed_goals)@,
            old(observed_csts)@,
            old(subgoals)@,
            final(observed_goals)@,
            final(observed_csts)@,
            final(subgoals)@,
        ),
{
    let ghost gg0 = observed_goals@;
    let ghost gc0 = observed_csts@;
    let ghost gs0 = subgoals@;
    let ghost start = reqs@;
    let ghost was = *reached;
    let bm = model.as_bound_model();
    let res_opt = abduce_ready(
        &bm,
        input,
        data,
        eq,
        as_vec,
        make_vec,
        arith,
        to_entity_id,
        to_number,
        entity_id_of,
    );
    let res = match res_opt {
        None => {
            assert(reqs@.subrange(0, start.len() as int) =~= start);
            assert(requirement_witness(
                *model,
                bm,
                None::<AbductionResult<V>>,
                None::<int>,
                bm,
                *input,
                instantiable@,
                *data,
                depth,
                *eq,
                *as_vec,
                *make_vec,
                *arith,
                *to_entity_id,
                *to_number,
                entity_id_of,
                *id_of,
                *entity_value,
                start,
                reqs@,
                was,
                *reached,
                gg0,
                gc0,
                gs0,
                observed_goals@,
                observed_csts@,
                subgoals@,
            ));
            return;
        },
        Some(r) => r,
    };
    let ghost gres = Some(res);
    let goal_imdl: &IMdl<V> = match &res {
        AbductionResult::SubGoal(_, _, imdl, _) => imdl,
        AbductionResult::IMdl(imdl) => imdl,
    };
    assert(*goal_imdl == abduced_imdl(res));
    assert(goal_imdl.model_id@ == model.model_id@);
    let mut hit: Option<usize> = None;
    let mut i: usize = 0;
    while i < instantiable.len()
        invariant
            i <= instantiable@.len(),
            value_ops_sound(*eq, *as_vec, *make_vec),
            hit is Some ==> hit->Some_0 < i && instantiable@[hit->Some_0 as int].model_id@
                == goal_imdl.model_id@ && first_match_answer(
                instantiable@,
                *goal_imdl,
                *eq,
                *as_vec,
                Some(hit->Some_0 as int),
            ),
            hit is None ==> forall|k: int|
                0 <= k < i ==> imdls_match_answer(#[trigger] instantiable@[k], *goal_imdl, *eq, *as_vec, false),
        decreases instantiable@.len() - i,
    {
        if hit.is_none() {
            if compare_imdls(&instantiable[i], goal_imdl, true, true, eq, as_vec) {
                hit = Some(i);
            }
        }
        i = i + 1;
    }
    let ghost ghit: Option<int> = match hit {
        Some(j) => Some(j as int),
        None => None,
    };
    assert(first_match_answer(instantiable@, *goal_imdl, *eq, *as_vec, ghit));
    match hit {
        Some(j) => {
            *reached = true;
            let c = goal_imdl.clone();
            reqs.push((c, depth));
            assert(reqs@.subrange(0, start.len() as int) =~= start);
            assert(reqs@.drop_last() =~= start);
            assert(instantiable@[j as int].model_id@ == reqs@[start.len() as int].0.model_id@);
            assert(requirement_witness(
                *model,
                bm,
                gres,
                ghit,
                bm,
                *input,
                instantiable@,
                *data,
                depth,
                *eq,
                *as_vec,
                *make_vec,
                *arith,
                *to_entity_id,
                *to_number,
                entity_id_of,
                *id_of,
                *entity_value,
                start,
                reqs@,
                was,
                *reached,
                gg0,
                gc0,
                gs0,
                observed_goals@,
                observed_csts@,
                subgoals@,
            ));
            return;
        },
        None => {},
    }
    if !data.models.contains_key(&goal_imdl.model_id) {
        assert(reqs@.subrange(0, start.len() as int) =~= start);
        assert(requirement_witness(
                *model,
                bm,
                gres,
                ghit,
                bm,
                *input,
                instantiable@,
                *data,
                depth,
                *eq,
                *as_vec,
                *make_vec,
                *arith,
                *to_entity_id,
                *to_number,
                entity_id_of,
                *id_of,
                *entity_value,
                start,
                reqs@,
                was,
                *reached,
                gg0,
                gc0,
                gs0,
                observed_goals@,
                observed_csts@,
                subgoals@,
            ));
        return;
    }
    let no_bindings: StrMap<V> = StrMap::new();
    let goal_bm = goal_imdl.instantiate(&no_bindings, data, make_vec, arith, to_entity_id, to_number);
    let rhs = match &goal_bm.model.right.pattern {
        MdlRightValue::MkVal(mv) => mv,
        _ => {
            assert(reqs@.subrange(0, start.len() as int) =~= start);
            assert(requirement_witness(
                *model,
                bm,
                gres,
                ghit,
                goal_bm,
                *input,
                instantiable@,
                *data,
                depth,
                *eq,
                *as_vec,
                *make_vec,
                *arith,
                *to_entity_id,
                *to_number,
                entity_id_of,
                *id_of,
                *entity_value,
                start,
                reqs@,
                was,
                *reached,
                gg0,
                gc0,
                gs0,
                observed_goals@,
                observed_csts@,
                subgoals@,
            ));
            return;
        },
    };
    let value = rhs.value.get_value_with_bindings(&goal_bm.bindings, make_vec);
    let id: Option<String> = match &rhs.entity_id {
        EntityPatternValue::Binding(b) => match goal_bm.bindings.get(b) {
            Some(v) => {
                let read = id_of(v);
                proof {
                    let c = choose|s: String| id_of.ensures((v,), s);
                    assert(id_of.ensures((v,), c));
                }
                Some(read)
            },
            None => None,
        },
        EntityPatternValue::EntityId(id) => Some(id.clone()),
    };
    let ghost key = fact_key(*rhs, goal_bm.bindings@, *id_of);
    assert(id is Some <==> key is Some);
    assert(id is Some ==> key->Some_0 == (id->Some_0@, rhs.var_name@));
    let mut holds = false;
    match (id, &value) {
        (Some(id), Some(v)) => match data.current_state.variables.get(&(id, rhs.var_name.clone())) {
            Some(held) => {
                holds = eq(held, v);
                proof {
                    assert(eq.requires((held, v)));
                }
            },
            None => {},
        },
        _ => {},
    }
    assert(holds == holds_value_answer(
        *rhs,
        goal_bm.bindings@,
        data.current_state.variables@,
        *make_vec,
        *id_of,
        *eq,
        true,
    ));
    if holds {
        assert(reqs@.subrange(0, start.len() as int) =~= start);
        assert(requirement_witness(
                *model,
                bm,
                gres,
                ghit,
                goal_bm,
                *input,
                instantiable@,
                *data,
                depth,
                *eq,
                *as_vec,
                *make_vec,
                *arith,
                *to_entity_id,
                *to_number,
                entity_id_of,
                *id_of,
                *entity_value,
                start,
                reqs@,
                was,
                *reached,
                gg0,
                gc0,
                gs0,
                observed_goals@,
                observed_csts@,
                subgoals@,
            ));
        return;
    }
    if goal_bm.model.is_casual_model() {
        let c = goal_imdl.clone();
        reqs.push((c, depth));
        assert(reqs@.drop_last() =~= start);
    }
    assert(reqs@.subrange(0, start.len() as int) =~= start);
    let ghost after = reqs@;
    let ghost now = *reached;
    let ghost mid_reqs = reqs@;
    match res {
        AbductionResult::SubGoal(sub_goal, cst_id, _, icst) => {
            add_sub_goal(
                sub_goal,
                cst_id,
                icst,
                data,
                observed_goals,
                observed_csts,
                depth,
                subgoals,
                entity_value,
                id_of,
                as_vec,
                eq,
            );
        },
        AbductionResult::IMdl(imdl) => {
            let ghost gimdl = imdl;
            let imdl_fact = Fact::new(MdlRightValue::IMdl(imdl), TimePatternRange::wildcard());
            assert(imdl_fact == imdl_input(gimdl));
            let req_models = all_req_models(data);
            let ghost copies = req_models@;
            let ghost mut trace: Seq<(Seq<(Fact<MkVal<V>>, usize)>, Seq<(ICst<V>, usize)>, Seq<Fact<MkVal<V>>>)> = seq![
                (observed_goals@, observed_csts@, subgoals@),
            ];
            let mut k: usize = 0;
            while k < req_models.len()
                invariant
                    k <= req_models@.len(),
                    copies == req_models@,
                    copies.len() == req_models_of(data.models).len(),
                    forall|i: int| 0 <= i < copies.len() ==> mdl_cloned(req_models_of(data.models)[i], #[trigger] copies[i]),
                    imdl_fact == imdl_input(gimdl),
                    value_ops_sound(*eq, *as_vec, *make_vec),
                    arith_decides(*arith),
                    conv_decides(*to_entity_id),
                    conv_decides(*to_number),
                    forall|v: &V| entity_id_of.requires((v,)),
                    ids_decided(*id_of),
                    entity_values_decided(*entity_value),
                    trace.len() == k + 1,
                    trace[0] == (gg0, gc0, gs0),
                    trace.last() == (observed_goals@, observed_csts@, subgoals@),
                    forall|x: int|
                        0 <= x < k ==> #[trigger] req_model_step_at(
                            copies,
                            gimdl,
                            *data,
                            depth,
                            *eq,
                            *as_vec,
                            *make_vec,
                            *arith,
                            *to_entity_id,
                            *to_number,
                            entity_id_of,
                            *id_of,
                            *entity_value,
                            trace,
                            x,
                        ),
                decreases req_models@.len() - k,
            {
                let ghost before = (observed_goals@, observed_csts@, subgoals@);
                let req_bm = req_models[k].as_bound_model();
                let rres = abduce_ready(
                    &req_bm,
                    &imdl_fact,
                    data,
                    eq,
                    as_vec,
                    make_vec,
                    arith,
                    to_entity_id,
                    to_number,
                    entity_id_of,
                );
                let ghost grres = rres;
                match rres {
                    Some(AbductionResult::SubGoal(sub_goal, cst_id, _, icst)) => {
                        add_sub_goal(
                            sub_goal,
                            cst_id,
                            icst,
                            data,
                            observed_goals,
                            observed_csts,
                            depth,
                            subgoals,
                            entity_value,
                            id_of,
                            as_vec,
                            eq,
                        );
                    },
                    _ => {},
                }
                proof {
                    let nt = trace.push((observed_goals@, observed_csts@, subgoals@));
                    assert(nt[k as int] == before);
                    assert(mdl_cloned(copies[k as int], req_bm.model));
                    assert(req_bm.bindings@ == Map::<Seq<char>, V>::empty());
                    assert(abduction_answer(
                        req_bm,
                        imdl_input(gimdl),
                        data.csts@,
                        *eq,
                        *as_vec,
                        *make_vec,
                        *arith,
                        *to_entity_id,
                        *to_number,
                        entity_id_of,
                        grres,
                    ));
                    assert(nt[k + 1] == (observed_goals@, observed_csts@, subgoals@));
                    assert(req_model_witness(
                        copies,
                        gimdl,
                        *data,
                        depth,
                        *eq,
                        *as_vec,
                        *make_vec,
                        *arith,
                        *to_entity_id,
                        *to_number,
                        entity_id_of,
                        *id_of,
                        *entity_value,
                        nt,
                        k as int,
                        req_bm,
                        grres,
                    ));
                    assert forall|x: int| 0 <= x < k + 1 implies #[trigger] req_model_step_at(
                        copies,
                        gimdl,
                        *data,
                        depth,
                        *eq,
                        *as_vec,
                        *make_vec,
                        *arith,
                        *to_entity_id,
                        *to_number,
                        entity_id_of,
                        *id_of,
                        *entity_value,
                        nt,
                        x,
                    ) by {
                        assert(nt[x] == trace[x]);
                        if x < k {
                            assert(nt[x + 1] == trace[x + 1]);
                            assert(req_model_step_at(
                                copies,
                                gimdl,
                                *data,
                                depth,
                                *eq,
                                *as_vec,
                                *make_vec,
                                *arith,
                                *to_entity_id,
                                *to_number,
                                entity_id_of,
                                *id_of,
                                *entity_value,
                                trace,
                                x,
                            ));
                            let (rb, rr) = choose|rb: BoundModel<V, C>, rr: Option<AbductionResult<V>>|
                                #[trigger] req_model_witness(
                                    copies,
                                    gimdl,
                                    *data,
                                    depth,
                                    *eq,
                                    *as_vec,
                                    *make_vec,
                                    *arith,
                                    *to_entity_id,
                                    *to_number,
                                    entity_id_of,
                                    *id_of,
                                    *entity_value,
                                    trace,
                                    x,
                                    rb,
                                    rr,
                                );
                            assert(req_model_witness(
                                copies,
                                gimdl,
                                *data,
                                depth,
                                *eq,
                                *as_vec,
                                *make_vec,
                                *arith,
                                *to_entity_id,
                                *to_number,
                                entity_id_of,
                                *id_of,
                                *entity_value,
                                nt,
                                x,
                                rb,
                                rr,
                            ));
                        } else {
                            assert(nt[x + 1] == (observed_goals@, observed_csts@, subgoals@));
                            assert(req_model_witness(
                                copies,
                                gimdl,
                                *data,
                                depth,
                                *eq,
                                *as_vec,
                                *make_vec,
                                *arith,
                                *to_entity_id,
                                *to_number,
                                entity_id_of,
                                *id_of,
                                *entity_value,
                                nt,
                                x,
                                req_bm,
                                grres,
                            ));
                        }
                    }
                    trace = nt;
                }
                k = k + 1;
            }
            assert(req_models_trace(
                copies,
                trace,
                gimdl,
                *data,
                depth,
                *eq,
                *as_vec,
                *make_vec,
                *arith,
                *to_entity_id,
                *to_number,
                entity_id_of,
                *id_of,
                *entity_value,
                gg0,
                gc0,
                gs0,
                observed_goals@,
                observed_csts@,
                subgoals@,
            ));
        },
    }
    assert(reqs@ == mid_reqs);
    assert(requirement_witness(
        *model,
        bm,
        gres,
        ghit,
        goal_bm,
        *input,
        instantiable@,
        *data,
        depth,
        *eq,
        *as_vec,
        *make_vec,
        *arith,
        *to_entity_id,
        *to_number,
        entity_id_of,
        *id_of,
        *entity_value,
        start,
        reqs@,
        was,
        *reached,
        gg0,
        gc0,
        gs0,
        observed_goals@,
        observed_csts@,
        subgoals@,
    ));
}

/// `input` is the goal as abduction starts from it: a copy of its variable
/// pattern as a right-hand side, with the goal's time range.
pub open spec fn goal_input<V: Clone>(goal: Fact<MkVal<V>>, input: Fact<MdlRightValue<V>>) -> bool {
    &&& input.time_range == goal.time_range
    &&& input.pattern is MkVal
    &&& mk_val_cloned(goal.pattern, input.pattern->MkVal_0)
}

/// Step `k` of `trace`: from the requirements, reached flag, observed lists
/// and sub-goals after the first `k` models to those after one more.
pub open spec fn requirement_trace_step<
    V: Clone,
    C: Clone,
    E: Fn(&V, &V) -> bool,
    A: Fn(&V) -> Option<Vec<V>>,
    M: Fn(Vec<V>) -> V,
    O: Fn(ArithOp, V, V) -> Option<V>,
    T: Fn(V) -> Option<V>,
    N: Fn(V) -> Option<V>,
    F: Fn(&V) -> Option<String>,
    I: Fn(&V) -> String,
    G: Fn(&String) -> V,
>(
    models: Seq<Mdl<V, C>>,
    input: Fact<MdlRightValue<V>>,
    inst: Seq<IMdl<V>>,
    data: System<V, C>,
    depth: usize,
    eq: E,
    as_vec: A,
    make_vec: M,
    arith: O,
    to_entity_id: T,
    to_number: N,
    entity_id_of: F,
    id_of: I,
    entity_value: G,
    trace: Seq<(Seq<(IMdl<V>, usize)>, bool, Seq<(Fact<MkVal<V>>, usize)>, Seq<(ICst<V>, usize)>, Seq<Fact<MkVal<V>>>)>,
    k: int,
) -> bool {
    requirement_step(
        models[k],
        input,
        inst,
        data,
        depth,
        eq,
        as_vec,
        make_vec,
        arith,
        to_entity_id,
        to_number,
        entity_id_of,
        id_of,
        entity_value,
        trace[k].0,
        trace[k + 1].0,
        trace[k].1,
        trace[k + 1].1,
        trace[k].2,
        trace[k].3,
        trace[k].4,
        trace[k + 1].2,
        trace[k + 1].3,
        trace[k + 1].4,
    )
}

/// `trace` holds the requirements, reached flag, observed lists and
/// sub-goals before any model (none found, the lists `g0` and `c0`) and
/// after each of `models` in turn, abduction starting from `input`, a copy
/// of the goal.
pub open spec fn requirement_trace<
    V: Clone,
    C: Clone,
    E: Fn(&V, &V) -> bool,
    A: Fn(&V) -> Option<Vec<V>>,
    M: Fn(Vec<V>) -> V,
    O: Fn(ArithOp, V, V) -> Option<V>,
    T: Fn(V) -> Option<V>,
    N: Fn(V) -> Option<V>,
    F: Fn(&V) -> Option<String>,
    I: Fn(&V) -> String,
    G: Fn(&String) -> V,
>(
    goal: Fact<MkVal<V>>,
    input: Fact<MdlRightValue<V>>,
    models: Seq<Mdl<V, C>>,
    inst: Seq<IMdl<V>>,
    data: System<V, C>,
    depth: usize,
    eq: E,
    as_vec: A,
    make_vec: M,
    arith: O,
    to_entity_id: T,
    to_number: N,
    entity_id_of: F,
    id_of: I,
    entity_value: G,
    g0: Seq<(Fact<MkVal<V>>, usize)>,
    c0: Seq<(ICst<V>, usize)>,
    trace: Seq<(Seq<(IMdl<V>, usize)>, bool, Seq<(Fact<MkVal<V>>, usize)>, Seq<(ICst<V>, usize)>, Seq<Fact<MkVal<V>>>)>,
) -> bool {
    &&& goal_input(goal, input)
    &&& trace.len() == models.len() + 1
    &&& trace[0] == (Seq::<(IMdl<V>, usize)>::empty(), false, g0, c0, Seq::<Fact<MkVal<V>>>::empty())
    &&& forall|k: int|
        0 <= k < models.len() ==> #[trigger] requirement_trace_step(
            models,
            input,
            inst,
            data,
            depth,
            eq,
            as_vec,
            make_vec,
            arith,
            to_entity_id,
            to_number,
            entity_id_of,
            id_of,
            entity_value,
            trace,
            k,
        )
}

/// The requirements found for the goal at `depth` (`reqs`), whether one is
/// reached from the current state (`reached`), the sub-goals left (`subs`)
/// and the observed goals and instantiations after (`g1`, `c1`, from `g0`,
/// `c0`): nothing from `MAX_DEPTH` on; otherwise what looking at each of
/// `models` in turn gives (see `requirement_witness`).
pub open spec fn goal_requirements_answer<
    V: Clone,
    C: Clone,
    E: Fn(&V, &V) -> bool,
    A: Fn(&V) -> Option<Vec<V>>,
    M: Fn(Vec<V>) -> V,
    O: Fn(ArithOp, V, V) -> Option<V>,
    T: Fn(V) -> Option<V>,
    N: Fn(V) -> Option<V>,
    F: Fn(&V) -> Option<String>,
    I: Fn(&V) -> String,
    G: Fn(&String) -> V,
>(
    goal: Fact<MkVal<V>>,
    models: Seq<Mdl<V, C>>,
    inst: Seq<IMdl<V>>,
    data: System<V, C>,
    depth: usize,
    eq: E,
    as_vec: A,
    make_vec: M,
    arith: O,
    to_entity_id: T,
    to_number: N,
    entity_id_of: F,
    id_of: I,
    entity_value: G,
    g0: Seq<(Fact<MkVal<V>>, usize)>,
    c0: Seq<(ICst<V>, usize)>,
    g1: Seq<(Fact<MkVal<V>>, usize)>,
    c1: Seq<(ICst<V>, usize)>,
    subs: Seq<Fact<MkVal<V>>>,
    reqs: Seq<(IMdl<V>, usize)>,
    reached: bool,
) -> bool {
    if depth >= MAX_DEPTH {
        reqs.len() == 0 && !reached && subs.len() == 0 && g1 == g0 && c1 == c0
    } else {
        exists|input: Fact<MdlRightValue<V>>, trace: Seq<(Seq<(IMdl<V>, usize)>, bool, Seq<(Fact<MkVal<V>>, usize)>, Seq<(ICst<V>, usize)>, Seq<Fact<MkVal<V>>>)>|
            #[trigger] requirement_trace(
                goal,
                input,
                models,
                inst,
                data,
                depth,
                eq,
                as_vec,
                make_vec,
                arith,
                to_entity_id,
                to_number,
                entity_id_of,
                id_of,
                entity_value,
                g0,
                c0,
                trace,
            ) && reqs == trace.last().0 && reached == trace.last().1 && g1 == trace.last().2
                && c1 == trace.last().3 && subs == trace.last().4
    }
}

/// `id` is the id of a model of one of the lists.
pub open spec fn from_models<V: Clone, C>(id: Seq<char>, a: Seq<Mdl<V, C>>, b: Seq<Mdl<V, C>>) -> bool {
    ||| exists|k: int| 0 <= k < a.len() && (#[trigger] a[k]).model_id@ == id
    ||| exists|k: int| 0 <= k < b.len() && (#[trigger] b[k]).model_id@ == id
}

/// The recursive part of backward chaining: the instantiations of the
/// causal and assumption models whose right-hand side the goal matches,
/// found at `depth`, the sub-goals they leave, and whether one of them is
/// reached from the current state. Nothing is looked at from `MAX_DEPTH` on.
pub fn get_goal_requirements_for_goal<
    V: Clone,
    C: Clone,
    E: Fn(&V, &V) -> bool,
    A: Fn(&V) -> Option<Vec<V>>,
    M: Fn(Vec<V>) -> V,
    O: Fn(ArithOp, V, V) -> Option<V>,
    T: Fn(V) -> Option<V>,
    N: Fn(V) -> Option<V>,
    F: Fn(&V) -> Option<String>,
    I: Fn(&V) -> String,
    G: Fn(&String) -> V,
>(
    goal: &Fact<MkVal<V>>,
    instantiable_cas_mdl: &Vec<IMdl<V>>,
    casual_models: &Vec<Mdl<V, C>>,
    assumption_models: &Vec<Mdl<V, C>>,
    data: &System<V, C>,
    observed_goals: &mut Vec<(Fact<MkVal<V>>, usize)>,
    observed_csts: &mut Vec<(ICst<V>, usize)>,
    depth: usize,
    eq: &E,
    as_vec: &A,
    make_vec: &M,
    arith: &O,
    to_entity_id: &T,
    to_number: &N,
    entity_id_of: &F,
    id_of: &I,
    entity_value: &G,
) -> (r: (Vec<(IMdl<V>, usize)>, Vec<Fact<MkVal<V>>>, bool))
    requires
        value_ops_sound(*eq, *as_vec, *make_vec),
        arith_decides(*arith),
        conv_decides(*to_entity_id),
        conv_decides(*to_number),
        forall|v: &V| entity_id_of.requires((v,)),
        ids_decided(*id_of),
        entity_values_decided(*entity_value),
    ensures
        depth >= MAX_DEPTH ==> r.0@.len() == 0 && r.1@.len() == 0 && !r.2 && final(observed_goals)@ == old(
            observed_goals,
        )@ && final(observed_csts)@ == old(observed_csts)@,
        forall|i: int|
            0 <= i < r.0@.len() ==> (#[trigger] r.0@[i]).1 == depth && from_models(
                r.0@[i].0.model_id@,
                casual_models@,
                assumption_models@,
            ),
        r.2 ==> exists|i: int, j: int|
            0 <= i < r.0@.len() && 0 <= j < instantiable_cas_mdl@.len()
                && (#[trigger] instantiable_cas_mdl@[j]).model_id@ == (#[trigger] r.0@[i]).0.model_id@,
        goal_requirements_answer(
            *goal,
            casual_models@ + assumption_models@,
            instantiable_cas_mdl@,
            *data,
            depth,
            *eq,
            *as_vec,
            *make_vec,
            *arith,
            *to_entity_id,
            *to_number,
            entity_id_of,
            *id_of,
            *entity_value,
            old(observed_goals)@,
            old(observed_csts)@,
            final(observed_goals)@,
            final(observed_csts)@,
            r.1@,
            r.0@,
            r.2,
        ),
{
    let ghost g0 = observed_goals@;
    let ghost c0 = observed_csts@;
    if depth >= MAX_DEPTH {
        return (Vec::new(), Vec::new(), false);
    }
    let mut reached = false;
    let mut reqs: Vec<(IMdl<V>, usize)> = Vec::new();
    let mut subgoals: Vec<Fact<MkVal<V>>> = Vec::new();
    let input = goal.with_pattern(MdlRightValue::MkVal(goal.pattern.clone()));
    assert(goal_input(*goal, input));
    let ghost models = casual_models@ + assumption_models@;
    let ghost mut trace: Seq<(Seq<(IMdl<V>, usize)>, bool, Seq<(Fact<MkVal<V>>, usize)>, Seq<(ICst<V>, usize)>, Seq<Fact<MkVal<V>>>)> = seq![
        (reqs@, reached, observed_goals@, observed_csts@, subgoals@),
    ];
    assert(reqs@ =~= Seq::<(IMdl<V>, usize)>::empty());
    assert(subgoals@ =~= Seq::<Fact<MkVal<V>>>::empty());
    let mut k: usize = 0;
    while k < casual_models.len()
        invariant
            k <= casual_models@.len(),
            value_ops_sound(*eq, *as_vec, *make_vec),
            arith_decides(*arith),
            conv_decides(*to_entity_id),
            conv_decides(*to_number),
            forall|v: &V| entity_id_of.requires((v,)),
            ids_decided(*id_of),
            entity_values_decided(*entity_value),
            forall|i: int|
                0 <= i < reqs@.len() ==> (#[trigger] reqs@[i]).1 == depth && from_models(
                    reqs@[i].0.model_id@,
                    casual_models@,
                    assumption_models@,
                ),
            reached ==> exists|i: int, j: int|
                0 <= i < reqs@.len() && 0 <= j < instantiable_cas_mdl@.len()
                    && (#[trigger] instantiable_cas_mdl@[j]).model_id@ == (#[trigger] reqs@[i]).0.model_id@,
            models == casual_models@ + assumption_models@,
            goal_input(*goal, input),
            trace.len() == k + 1,
            trace.last() == (reqs@, reached, observed_goals@, observed_csts@, subgoals@),
            trace[0] == (Seq::<(IMdl<V>, usize)>::empty(), false, g0, c0, Seq::<Fact<MkVal<V>>>::empty()),
            forall|x: int|
                0 <= x < k ==> #[trigger] requirement_trace_step(
                    models,
                    input,
                    instantiable_cas_mdl@,
                    *data,
                    depth,
                    *eq,
                    *as_vec,
                    *make_vec,
                    *arith,
                    *to_entity_id,
                    *to_number,
                    entity_id_of,
                    *id_of,
                    *entity_value,
                    trace,
                    x,
                ),
        decreases casual_models@.len() - k,
    {
        let ghost before = reqs@;
        let ghost was = reached;
        requirements_from_model(
            &casual_models[k],
            &input,
            instantiable_cas_mdl,
            data,
            observed_goals,
            observed_csts,
            depth,
            &mut reqs,
            &mut subgoals,
            &mut reached,
            eq,
            as_vec,
            make_vec,
            arith,
            to_entity_id,
            to_number,
            entity_id_of,
            id_of,
            entity_value,
        );
        proof {
            assert forall|i: int| 0 <= i < reqs@.len() implies (#[trigger] reqs@[i]).1 == depth && from_models(
                reqs@[i].0.model_id@,
                casual_models@,
                assumption_models@,
            ) by {
                if i < before.len() {
                    assert(reqs@[i] == reqs@.subrange(0, before.len() as int)[i]);
                } else {
                    assert(casual_models@[k as int].model_id@ == reqs@[i].0.model_id@);
                }
            }
            if was {
                let (i, j) = choose|i: int, j: int|
                    0 <= i < before.len() && 0 <= j < instantiable_cas_mdl@.len()
                        && (#[trigger] instantiable_cas_mdl@[j]).model_id@ == (#[trigger] before[i]).0.model_id@;
                assert(reqs@[i] == reqs@.subrange(0, before.len() as int)[i]);
                assert(instantiable_cas_mdl@[j].model_id@ == reqs@[i].0.model_id@);
            }
        }
        proof {
            let nt = trace.push((reqs@, reached, observed_goals@, observed_csts@, subgoals@));
            assert(models[k as int] == casual_models@[k as int]);
            assert forall|x: int| 0 <= x < k + 1 implies #[trigger] requirement_trace_step(
                models,
                input,
                instantiable_cas_mdl@,
                *data,
                depth,
                *eq,
                *as_vec,
                *make_vec,
                *arith,
                *to_entity_id,
                *to_number,
                entity_id_of,
                *id_of,
                *entity_value,
                nt,
                x,
            ) by {
                assert(nt[x] == trace[x]);
                if x < k {
                    assert(nt[x + 1] == trace[x + 1]);
                    assert(requirement_trace_step(
                        models,
                        input,
                        instantiable_cas_mdl@,
                        *data,
                        depth,
                        *eq,
                        *as_vec,
                        *make_vec,
                        *arith,
                        *to_entity_id,
                        *to_number,
                        entity_id_of,
                        *id_of,
                        *entity_value,
                        trace,
                        x,
                    ));
                }
            }
            trace = nt;
        }
        k = k + 1;
    }
    let mut k: usize = 0;
    while k < assumption_models.len()
        invariant
            k <= assumption_models@.len(),
            value_ops_sound(*eq, *as_vec, *make_vec),
            arith_decides(*arith),
            conv_decides(*to_entity_id),
            conv_decides(*to_number),
            forall|v: &V| entity_id_of.requires((v,)),
            ids_decided(*id_of),
            entity_values_decided(*entity_value),
            forall|i: int|
                0 <= i < reqs@.len() ==> (#[trigger] reqs@[i]).1 == depth && from_models(
                    reqs@[i].0.model_id@,
                    casual_models@,
                    assumption_models@,
                ),
            reached ==> exists|i: int, j: int|
                0 <= i < reqs@.len() && 0 <= j < instantiable_cas_mdl@.len()
                    && (#[trigger] instantiable_cas_mdl@[j]).model_id@ == (#[trigger] reqs@[i]).0.model_id@,
            models == casual_models@ + assumption_models@,
            goal_input(*goal, input),
            trace.len() == casual_models@.len() + k + 1,
            trace.last() == (reqs@, reached, observed_goals@, observed_csts@, subgoals@),
            trace[0] == (Seq::<(IMdl<V>, usize)>::empty(), false, g0, c0, Seq::<Fact<MkVal<V>>>::empty()),
            forall|x: int|
                0 <= x < casual_models@.len() + k ==> #[trigger] requirement_trace_step(
                    models,
                    input,
                    instantiable_cas_mdl@,
                    *data,
                    depth,
                    *eq,
                    *as_vec,
                    *make_vec,
                    *arith,
                    *to_entity_id,
                    *to_number,
                    entity_id_of,
                    *id_of,
                    *entity_value,
                    trace,
                    x,
                ),
        decreases assumption_models@.len() - k,
    {
        let ghost before = reqs@;
        let ghost was = reached;
        requirements_from_model(
            &assumption_models[k],
            &input,
            instantiable_cas_mdl,
            data,
            observed_goals,
            observed_csts,
            depth,
            &mut reqs,
            &mut subgoals,
            &mut reached,
            eq,
            as_vec,
            make_vec,
            arith,
            to_entity_id,
            to_number,
            entity_id_of,
            id_of,
            entity_value,
        );
        proof {
            assert forall|i: int| 0 <= i < reqs@.len() implies (#[trigger] reqs@[i]).1 == depth && from_models(
                reqs@[i].0.model_id@,
                casual_models@,
                assumption_models@,
            ) by {
                if i < before.len() {
                    assert(reqs@[i] == reqs@.subrange(0, before.len() as int)[i]);
                } else {
                    assert(assumption_models@[k as int].model_id@ == reqs@[i].0.model_id@);
                }
            }
            if was {
                let (i, j) = choose|i: int, j: int|
                    0 <= i < before.len() && 0 <= j < instantiable_cas_mdl@.len()
                        && (#[trigger] instantiable_cas_mdl@[j]).model_id@ == (#[trigger] before[i]).0.model_id@;
                assert(reqs@[i] == reqs@.subrange(0, before.len() as int)[i]);
                assert(instantiable_cas_mdl@[j].model_id@ == reqs@[i].0.model_id@);
            }
        }
        proof {
            let nt = trace.push((reqs@, reached, observed_goals@, observed_csts@, subgoals@));
            assert(models[casual_models@.len() + k] == assumption_models@[k as int]);
            assert forall|x: int| 0 <= x < casual_models@.len() + k + 1 implies #[trigger] requirement_trace_step(
                models,
                input,
                instantiable_cas_mdl@,
                *data,
                depth,
                *eq,
                *as_vec,
                *make_vec,
                *arith,
                *to_entity_id,
                *to_number,
                entity_id_of,
                *id_of,
                *entity_value,
                nt,
                x,
            ) by {
                assert(nt[x] == trace[x]);
                if x < casual_models@.len() + k {
                    assert(nt[x + 1] == trace[x + 1]);
                    assert(requirement_trace_step(
                        models,
                        input,
                        instantiable_cas_mdl@,
                        *data,
                        depth,
                        *eq,
                        *as_vec,
                        *make_vec,
                        *arith,
                        *to_entity_id,
                        *to_number,
                        entity_id_of,
                        *id_of,
                        *entity_value,
                        trace,
                        x,
                    ));
                }
            }
            trace = nt;
        }
        k = k + 1;
    }
    assert(requirement_trace(
        *goal,
        input,
        models,
        instantiable_cas_mdl@,
        *data,
        depth,
        *eq,
        *as_vec,
        *make_vec,
        *arith,
        *to_entity_id,
        *to_number,
        entity_id_of,
        *id_of,
        *entity_value,
        g0,
        c0,
        trace,
    ));
    (reqs, subgoals, reached)
}

/// The requirements of the blocks, one block after another.
pub open spec fn blocks_requirements<V: Clone>(
    blocks: Seq<(Fact<MkVal<V>>, usize, Seq<(IMdl<V>, usize)>, bool, Seq<Fact<MkVal<V>>>)>,
) -> Seq<(IMdl<V>, usize)>
    decreases blocks.len(),
{
    if blocks.len() == 0 {
        seq![]
    } else {
        blocks_requirements(blocks.drop_last()) + blocks.last().2
    }
}

/// Block `i` holds a goal, the depth at which it was looked at, the
/// requirements found for it there, whether one is reached and the
/// sub-goals it left, the observed lists going from `lists[i]` to
/// `lists[i + 1]` (see `goal_requirements_answer`).
pub open spec fn block_answer_at<
    V: Clone,
    C: Clone,
    E: Fn(&V, &V) -> bool,
    A: Fn(&V) -> Option<Vec<V>>,
    M: Fn(Vec<V>) -> V,
    O: Fn(ArithOp, V, V) -> Option<V>,
    T: Fn(V) -> Option<V>,
    N: Fn(V) -> Option<V>,
    F: Fn(&V) -> Option<String>,
    I: Fn(&V) -> String,
    G: Fn(&String) -> V,
>(
    blocks: Seq<(Fact<MkVal<V>>, usize, Seq<(IMdl<V>, usize)>, bool, Seq<Fact<MkVal<V>>>)>,
    lists: Seq<(Seq<(Fact<MkVal<V>>, usize)>, Seq<(ICst<V>, usize)>)>,
    models: Seq<Mdl<V, C>>,
    inst: Seq<IMdl<V>>,
    data: System<V, C>,
    eq: E,
    as_vec: A,
    make_vec: M,
    arith: O,
    to_entity_id: T,
    to_number: N,
    entity_id_of: F,
    id_of: I,
    entity_value: G,
    i: int,
) -> bool {
    goal_requirements_answer(
        blocks[i].0,
        models,
        inst,
        data,
        blocks[i].1,
        eq,
        as_vec,
        make_vec,
        arith,
        to_entity_id,
        to_number,
        entity_id_of,
        id_of,
        entity_value,
        lists[i].0,
        lists[i].1,
        lists[i + 1].0,
        lists[i + 1].1,
        blocks[i].4,
        blocks[i].2,
        blocks[i].3,
    )
}

/// The blocks were looked at in turn, the observed lists passed from one
/// to the next (see `block_answer_at`).
pub open spec fn requirement_blocks<
    V: Clone,
    C: Clone,
    E: Fn(&V, &V) -> bool,
    A: Fn(&V) -> Option<Vec<V>>,
    M: Fn(Vec<V>) -> V,
    O: Fn(ArithOp, V, V) -> Option<V>,
    T: Fn(V) -> Option<V>,
    N: Fn(V) -> Option<V>,
    F: Fn(&V) -> Option<String>,
    I: Fn(&V) -> String,
    G: Fn(&String) -> V,
>(
    blocks: Seq<(Fact<MkVal<V>>, usize, Seq<(IMdl<V>, usize)>, bool, Seq<Fact<MkVal<V>>>)>,
    lists: Seq<(Seq<(Fact<MkVal<V>>, usize)>, Seq<(ICst<V>, usize)>)>,
    models: Seq<Mdl<V, C>>,
    inst: Seq<IMdl<V>>,
    data: System<V, C>,
    eq: E,
    as_vec: A,
    make_vec: M,
    arith: O,
    to_entity_id: T,
    to_number: N,
    entity_id_of: F,
    id_of: I,
    entity_value: G,
) -> bool {
    &&& lists.len() == blocks.len() + 1
    &&& forall|i: int|
        0 <= i < blocks.len() ==> #[trigger] block_answer_at(
            blocks,
            lists,
            models,
            inst,
            data,
            eq,
            as_vec,
            make_vec,
            arith,
            to_entity_id,
            to_number,
            entity_id_of,
            id_of,
            entity_value,
            i,
        )
}

/// The goals of a level of blocks, in order.
pub open spec fn level_goals<V: Clone>(level: Seq<(Fact<MkVal<V>>, usize, Seq<(IMdl<V>, usize)>, bool, Seq<Fact<MkVal<V>>>)>) -> Seq<Fact<MkVal<V>>> {
    level.map_values(|b: (Fact<MkVal<V>>, usize, Seq<(IMdl<V>, usize)>, bool, Seq<Fact<MkVal<V>>>)| b.0)
}

/// The sub-goals that the blocks of a level leave, one block after another.
pub open spec fn level_subs<V: Clone>(level: Seq<(Fact<MkVal<V>>, usize, Seq<(IMdl<V>, usize)>, bool, Seq<Fact<MkVal<V>>>)>) -> Seq<Fact<MkVal<V>>>
    decreases level.len(),
{
    if level.len() == 0 {
        seq![]
    } else {
        level_subs(level.drop_last()) + level.last().4
    }
}

/// The blocks of the levels, one level after another.
pub open spec fn blocks_of<V: Clone>(levels: Seq<Seq<(Fact<MkVal<V>>, usize, Seq<(IMdl<V>, usize)>, bool, Seq<Fact<MkVal<V>>>)>>) -> Seq<(Fact<MkVal<V>>, usize, Seq<(IMdl<V>, usize)>, bool, Seq<Fact<MkVal<V>>>)>
    decreases levels.len(),
{
    if levels.len() == 0 {
        seq![]
    } else {
        blocks_of(levels.drop_last()) + levels.last()
    }
}

/// The levels of a breadth-first search from the goal: the goal alone at
/// depth 0, then at each depth below `MAX_DEPTH` the sub-goals that the
/// level before left, in order.
pub open spec fn bfs_levels<V: Clone>(goal: Fact<MkVal<V>>, levels: Seq<Seq<(Fact<MkVal<V>>, usize, Seq<(IMdl<V>, usize)>, bool, Seq<Fact<MkVal<V>>>)>>) -> bool {
    &&& levels.len() == MAX_DEPTH
    &&& levels[0].len() == 1
    &&& levels[0][0].0 == goal
    &&& forall|d: int, i: int| 0 <= d < levels.len() && 0 <= i < levels[d].len() ==> (#[trigger] levels[d][i]).1 == d
    &&& forall|d: int| 1 <= d < levels.len() ==> level_goals(#[trigger] levels[d]) == level_subs(levels[d - 1])
}

/// Backward chaining from a goal, level by level: the requirements found
/// for the goal at depth 0, then for the sub-goals that each level leaves
/// at the next depth, in the order they were found, up to `MAX_DEPTH`.
/// The result is the requirements of the blocks of the levels of that
/// search, in order.
pub fn run_get_goal_requirements_for_goal<
    V: Clone,
    C: Clone,
    E: Fn(&V, &V) -> bool,
    A: Fn(&V) -> Option<Vec<V>>,
    M: Fn(Vec<V>) -> V,
    O: Fn(ArithOp, V, V) -> Option<V>,
    T: Fn(V) -> Option<V>,
    N: Fn(V) -> Option<V>,
    F: Fn(&V) -> Option<String>,
    I: Fn(&V) -> String,
    G: Fn(&String) -> V,
>(
    goal: &Fact<MkVal<V>>,
    instantiable_cas_mdl: &Vec<IMdl<V>>,
    casual_models: &Vec<Mdl<V, C>>,
    assumption_models: &Vec<Mdl<V, C>>,
    data: &System<V, C>,
    observed_goals: &mut Vec<(Fact<MkVal<V>>, usize)>,
    observed_csts: &mut Vec<(ICst<V>, usize)>,
    eq: &E,
    as_vec: &A,
    make_vec: &M,
    arith: &O,
    to_entity_id: &T,
    to_number: &N,
    entity_id_of: &F,
    id_of: &I,
    entity_value: &G,
) -> (r: Vec<(IMdl<V>, usize)>)
    requires
        value_ops_sound(*eq, *as_vec, *make_vec),
        arith_decides(*arith),
        conv_decides(*to_entity_id),
        conv_decides(*to_number),
        forall|v: &V| entity_id_of.requires((v,)),
        ids_decided(*id_of),
        entity_values_decided(*entity_value),
    ensures
        forall|i: int|
            0 <= i < r@.len() ==> (#[trigger] r@[i]).1 < MAX_DEPTH && from_models(
                r@[i].0.model_id@,
                casual_models@,
                assumption_models@,
            ),
        exists|levels: Seq<Seq<(Fact<MkVal<V>>, usize, Seq<(IMdl<V>, usize)>, bool, Seq<Fact<MkVal<V>>>)>>, lists: Seq<(Seq<(Fact<MkVal<V>>, usize)>, Seq<(ICst<V>, usize)>)>|
            #[trigger] bfs_levels(*goal, levels) && #[trigger] requirement_blocks(
                blocks_of(levels),
                lists,
                casual_models@ + assumption_models@,
                instantiable_cas_mdl@,
                *data,
                *eq,
                *as_vec,
                *make_vec,
                *arith,
                *to_entity_id,
                *to_number,
                entity_id_of,
                *id_of,
                *entity_value,
            ) && lists[0] == (old(observed_goals)@, old(observed_csts)@) && lists.last() == (
                final(observed_goals)@,
                final(observed_csts)@,
            ) && r@ == blocks_requirements(blocks_of(levels)),
{
    let ghost lg0 = observed_goals@;
    let ghost lc0 = observed_csts@;
    let ghost models = casual_models@ + assumption_models@;
    let (first, subs, first_reached) = get_goal_requirements_for_goal(
        goal,
        instantiable_cas_mdl,
        casual_models,
        assumption_models,
        data,
        observed_goals,
        observed_csts,
        0,
        eq,
        as_vec,
        make_vec,
        arith,
        to_entity_id,
        to_number,
        entity_id_of,
        id_of,
        entity_value,
    );
    let ghost mut blocks: Seq<(Fact<MkVal<V>>, usize, Seq<(IMdl<V>, usize)>, bool, Seq<Fact<MkVal<V>>>)> = seq![
        (*goal, 0usize, first@, first_reached, subs@),
    ];
    let ghost mut done: Seq<Seq<(Fact<MkVal<V>>, usize, Seq<(IMdl<V>, usize)>, bool, Seq<Fact<MkVal<V>>>)>> = seq![blocks];
    let ghost mut lists: Seq<(Seq<(Fact<MkVal<V>>, usize)>, Seq<(ICst<V>, usize)>)> = seq![(lg0, lc0), (observed_goals@, observed_csts@)];
    assert(block_answer_at(
        blocks,
        lists,
        casual_models@ + assumption_models@,
        instantiable_cas_mdl@,
        *data,
        *eq,
        *as_vec,
        *make_vec,
        *arith,
        *to_entity_id,
        *to_number,
        entity_id_of,
        *id_of,
        *entity_value,
        0,
    ));
    assert(blocks.drop_last() =~= Seq::<(Fact<MkVal<V>>, usize, Seq<(IMdl<V>, usize)>, bool, Seq<Fact<MkVal<V>>>)>::empty());
    assert(blocks_requirements(blocks) =~= first@) by {
        reveal_with_fuel(blocks_requirements, 2);
    }
    assert(done.drop_last() =~= Seq::<Seq<(Fact<MkVal<V>>, usize, Seq<(IMdl<V>, usize)>, bool, Seq<Fact<MkVal<V>>>)>>::empty());
    assert(blocks_of(done) =~= blocks) by {
        reveal_with_fuel(blocks_of, 2);
    }
    assert(level_subs(blocks) =~= subs@) by {
        reveal_with_fuel(level_subs, 2);
    }
    let mut all = first;
    let mut level = subs;
    let mut depth: usize = 1;
    while depth < MAX_DEPTH
        invariant
            1 <= depth <= MAX_DEPTH,
            value_ops_sound(*eq, *as_vec, *make_vec),
            arith_decides(*arith),
            conv_decides(*to_entity_id),
            conv_decides(*to_number),
            forall|v: &V| entity_id_of.requires((v,)),
            ids_decided(*id_of),
            entity_values_decided(*entity_value),
            models == casual_models@ + assumption_models@,
            forall|i: int|
                0 <= i < all@.len() ==> (#[trigger] all@[i]).1 < MAX_DEPTH && from_models(
                    all@[i].0.model_id@,
                    casual_models@,
                    assumption_models@,
                ),
            requirement_blocks(
                blocks,
                lists,
                models,
                instantiable_cas_mdl@,
                *data,
                *eq,
                *as_vec,
                *make_vec,
                *arith,
                *to_entity_id,
                *to_number,
                entity_id_of,
                *id_of,
                *entity_value,
            ),
            lists[0] == (lg0, lc0),
            lists.last() == (observed_goals@, observed_csts@),
            done.len() == depth,
            done[0].len() == 1,
            done[0][0].0 == *goal,
            forall|d: int, i: int| 0 <= d < done.len() && 0 <= i < done[d].len() ==> (#[trigger] done[d][i]).1 == d,
            forall|d: int| 1 <= d < done.len() ==> level_goals(#[trigger] done[d]) == level_subs(done[d - 1]),
            blocks == blocks_of(done),
            level@ == level_subs(done[depth - 1]),
            all@ == blocks_requirements(blocks),
        decreases MAX_DEPTH - depth,
    {
        let mut next: Vec<Fact<MkVal<V>>> = Vec::new();
        let ghost mut cur: Seq<(Fact<MkVal<V>>, usize, Seq<(IMdl<V>, usize)>, bool, Seq<Fact<MkVal<V>>>)> = seq![];
        assert(blocks_of(done) + cur =~= blocks_of(done));
        assert(next@ =~= level_subs(cur));
        let mut g: usize = 0;
        while g < level.len()
            invariant
                g <= level@.len(),
                1 <= depth < MAX_DEPTH,
                value_ops_sound(*eq, *as_vec, *make_vec),
                arith_decides(*arith),
                conv_decides(*to_entity_id),
                conv_decides(*to_number),
                forall|v: &V| entity_id_of.requires((v,)),
                ids_decided(*id_of),
                entity_values_decided(*entity_value),
                models == casual_models@ + assumption_models@,
                forall|i: int|
                    0 <= i < all@.len() ==> (#[trigger] all@[i]).1 < MAX_DEPTH && from_models(
                        all@[i].0.model_id@,
                        casual_models@,
                        assumption_models@,
                    ),
                requirement_blocks(
                    blocks,
                    lists,
                    models,
                    instantiable_cas_mdl@,
                    *data,
                    *eq,
                    *as_vec,
                    *make_vec,
                    *arith,
                    *to_entity_id,
                    *to_number,
                    entity_id_of,
                    *id_of,
                    *entity_value,
                ),
                lists[0] == (lg0, lc0),
                lists.last() == (observed_goals@, observed_csts@),
                done.len() == depth,
                blocks == blocks_of(done) + cur,
                cur.len() == g,
                forall|i: int| 0 <= i < g ==> (#[trigger] cur[i]).0 == level@[i] && cur[i].1 == depth,
                next@ == level_subs(cur),
                all@ == blocks_requirements(blocks),
            decreases level@.len() - g,
        {
            let (mut reqs, mut subs, reached) = get_goal_requirements_for_goal(
                &level[g],
                instantiable_cas_mdl,
                casual_models,
                assumption_models,
                data,
                observed_goals,
                observed_csts,
                depth,
                eq,
                as_vec,
                make_vec,
                arith,
                to_entity_id,
                to_number,
                entity_id_of,
                id_of,
                entity_value,
            );
            let ghost before = all@;
            let ghost added = reqs@;
            proof {
                let nb = blocks.push((level@[g as int], depth, added, reached, subs@));
                let nl = lists.push((observed_goals@, observed_csts@));
                assert forall|i: int| 0 <= i < nb.len() implies #[trigger] block_answer_at(
                    nb,
                    nl,
                    models,
                    instantiable_cas_mdl@,
                    *data,
                    *eq,
                    *as_vec,
                    *make_vec,
                    *arith,
                    *to_entity_id,
                    *to_number,
                    entity_id_of,
                    *id_of,
                    *entity_value,
                    i,
                ) by {
                    assert(nl[i] == lists[i]);
                    if i < blocks.len() {
                        assert(nb[i] == blocks[i]);
                        assert(nl[i + 1] == lists[i + 1]);
                        assert(block_answer_at(
                            blocks,
                            lists,
                            models,
                            instantiable_cas_mdl@,
                            *data,
                            *eq,
                            *as_vec,
                            *make_vec,
                            *arith,
                            *to_entity_id,
                            *to_number,
                            entity_id_of,
                            *id_of,
                            *entity_value,
                            i,
                        ));
                    }
                }
                lists = nl;
                assert(nb.drop_last() =~= blocks);
                let nc = cur.push((level@[g as int], depth, added, reached, subs@));
                assert(nc.drop_last() =~= cur);
                assert(nb =~= blocks_of(done) + nc);
                blocks = nb;
                cur = nc;
            }
            let ghost subs_before = next@;
            all.append(&mut reqs);
            assert(all@ =~= before + added);
            assert forall|i: int| 0 <= i < all@.len() implies (#[trigger] all@[i]).1 < MAX_DEPTH
                && from_models(all@[i].0.model_id@, casual_models@, assumption_models@) by {
                if i < before.len() {
                    assert(all@[i] == before[i]);
                } else {
                    assert(all@[i] == added[i - before.len()]);
                }
            }
            let ghost block_subs = subs@;
            next.append(&mut subs);
            assert(next@ =~= subs_before + block_subs);
            g = g + 1;
        }
        proof {
            assert(level_goals(cur) =~= level@);
            let nd = done.push(cur);
            assert(nd.drop_last() =~= done);
            assert(blocks_of(nd) == blocks_of(done) + cur);
            assert forall|d: int, i: int| 0 <= d < nd.len() && 0 <= i < nd[d].len() implies (#[trigger] nd[d][i]).1 == d by {
                if d < done.len() {
                    assert(nd[d] == done[d]);
                }
            }
            assert forall|d: int| 1 <= d < nd.len() implies level_goals(#[trigger] nd[d]) == level_subs(nd[d - 1]) by {
                if d < done.len() {
                    assert(nd[d] == done[d]);
                    assert(nd[d - 1] == done[d - 1]);
                } else {
                    assert(nd[d] == cur);
                    assert(nd[d - 1] == done[depth - 1]);
                }
            }
            done = nd;
        }
        level = next;
        depth = depth + 1;
    }
    assert(bfs_levels(*goal, done));
    assert(requirement_blocks(
        blocks_of(done),
        lists,
        models,
        instantiable_cas_mdl@,
        *data,
        *eq,
        *as_vec,
        *make_vec,
        *arith,
        *to_entity_id,
        *to_number,
        entity_id_of,
        *id_of,
        *entity_value,
    ));
    all
}

/// `ans` is an answer that comparing two requirements may give: the same
/// depth, model, parameters and guard bindings, values compared by `eq`.
pub open spec fn requirements_same_answer<V: Clone, E: Fn(&V, &V) -> bool>(
    a: (IMdl<V>, usize),
    b: (IMdl<V>, usize),
    eq: E,
    ans: bool,
) -> bool {
    if ans {
        &&& a.1 == b.1
        &&& a.0.model_id@ == b.0.model_id@
        &&& seqs_equal_answer(a.0.params@, b.0.params@, eq, true)
        &&& bindings_same_answer(a.0.fwd_guard_bindings@, b.0.fwd_guard_bindings@, eq, true)
    } else {
        ||| a.1 != b.1
        ||| a.0.model_id@ != b.0.model_id@
        ||| seqs_equal_answer(a.0.params@, b.0.params@, eq, false)
        ||| bindings_same_answer(a.0.fwd_guard_bindings@, b.0.fwd_guard_bindings@, eq, false)
    }
}

/// Requirements are the same only when they are at the same depth and
/// instantiate the same model; requirements at different depths, or of
/// different models, are never the same, whatever their parameters.
pub proof fn lemma_same_requirements_share_model_and_depth<V: Clone, E: Fn(&V, &V) -> bool>(
    a: (IMdl<V>, usize),
    b: (IMdl<V>, usize),
    eq: E,
)
    ensures
        requirements_same_answer(a, b, eq, true) ==> a.0.model_id@ == b.0.model_id@ && a.1 == b.1,
        a.0.model_id@ != b.0.model_id@ || a.1 != b.1 ==> requirements_same_answer(a, b, eq, false),
{
}

/// Whether two requirements are the same.
fn requirements_same<V: Clone, E: Fn(&V, &V) -> bool>(
    a: &(IMdl<V>, usize),
    b: &(IMdl<V>, usize),
    eq: &E,
) -> (r: bool)
    requires
        forall|x: &V, y: &V| #[trigger] eq.requires((x, y)),
    ensures
        requirements_same_answer(*a, *b, *eq, r),
{
    a.1 == b.1 && a.0.model_id == b.0.model_id && params_equal(&a.0.params, &b.0.params, eq)
        && same_bindings(&a.0.fwd_guard_bindings, &b.0.fwd_guard_bindings, eq)
}

/// The causal models of the system.
pub open spec fn causal_models_of<V: Clone, C>(models: StrMap<Mdl<V, C>>) -> Seq<Mdl<V, C>> {
    models_where(models, |m: Mdl<V, C>| model_of_kind(m, true, false, false, false))
}

/// The assumption models of the system.
pub open spec fn assumption_models_of<V: Clone, C>(models: StrMap<Mdl<V, C>>) -> Seq<Mdl<V, C>> {
    models_where(models, |m: Mdl<V, C>| model_of_kind(m, false, false, true, false))
}

/// The state prediction models of the system.
pub open spec fn prediction_models_of<V: Clone, C>(models: StrMap<Mdl<V, C>>) -> Seq<Mdl<V, C>> {
    models_where(models, |m: Mdl<V, C>| model_of_kind(m, false, false, false, true))
}

/// `id` is the id of a confident causal model of the system that succeeded
/// more than once, or of an assumption or state prediction model.
pub open spec fn chains_through<V: Clone, C, K: Fn(&C) -> bool>(
    models: StrMap<Mdl<V, C>>,
    confident: K,
    id: Seq<char>,
) -> bool {
    ||| exists|k: int|
        0 <= k < causal_models_of(models).len() && (#[trigger] causal_models_of(models)[k]).model_id@ == id
            && causal_models_of(models)[k].success_count > 1
    ||| exists|k: int|
        0 <= k < assumption_models_of(models).len() && (#[trigger] assumption_models_of(models)[k]).model_id@
            == id
    ||| exists|k: int|
        0 <= k < prediction_models_of(models).len() && (#[trigger] prediction_models_of(models)[k]).model_id@
            == id
}

/// Each model is a copy, by id, of a causal model of the system that
/// succeeded more than once.
spec fn confident_provenance<V: Clone, C>(ms: Seq<Mdl<V, C>>, models: StrMap<Mdl<V, C>>) -> bool {
    forall|i: int|
        0 <= i < ms.len() ==> exists|x: int|
            0 <= x < causal_models_of(models).len() && (#[trigger] causal_models_of(models)[x]).model_id@
                == (#[trigger] ms[i]).model_id@ && causal_models_of(models)[x].success_count > 1
}

/// Each model is a copy, by id, of an assumption or state prediction model
/// of the system.
spec fn kind_provenance<V: Clone, C>(ms: Seq<Mdl<V, C>>, models: StrMap<Mdl<V, C>>) -> bool {
    forall|i: int|
        0 <= i < ms.len() ==> exists|x: int|
            0 <= x < assumption_models_of(models).len() && (#[trigger] assumption_models_of(models)[x]).model_id@
                == (#[trigger] ms[i]).model_id@ || exists|x: int|
            0 <= x < prediction_models_of(models).len() && (#[trigger] prediction_models_of(models)[x]).model_id@
                == ms[i].model_id@
}

/// Whether requirement `x` is kept (`keep`) after those kept `before` it:
/// kept when it differs from each of them, left out when it is the same as
/// one of them.
pub open spec fn requirement_kept_step<V: Clone, E: Fn(&V, &V) -> bool>(
    before: Seq<(IMdl<V>, usize)>,
    x: (IMdl<V>, usize),
    keep: bool,
    eq: E,
) -> bool {
    if keep {
        forall|j: int| 0 <= j < before.len() ==> #[trigger] requirements_same_answer(before[j], x, eq, false)
    } else {
        exists|j: int| 0 <= j < before.len() && #[trigger] requirements_same_answer(before[j], x, eq, true)
    }
}

/// `keep` marks the first requirement of each group that `eq` answers the
/// same, each compared with those kept before it.
pub open spec fn first_requirements<V: Clone, E: Fn(&V, &V) -> bool>(
    s: Seq<(IMdl<V>, usize)>,
    keep: Seq<bool>,
    eq: E,
) -> bool {
    &&& keep.len() == s.len()
    &&& forall|k: int|
        0 <= k < s.len() ==> #[trigger] requirement_kept_step(kept(s.take(k), keep.take(k)), s[k], keep[k], eq)
}

/// Marking one more requirement keeps the marking the first of each group.
proof fn lemma_first_requirements_push<V: Clone, E: Fn(&V, &V) -> bool>(
    s: Seq<(IMdl<V>, usize)>,
    keep: Seq<bool>,
    x: (IMdl<V>, usize),
    b: bool,
    eq: E,
)
    requires
        first_requirements(s, keep, eq),
        requirement_kept_step(kept(s, keep), x, b, eq),
    ensures
        first_requirements(s.push(x), keep.push(b), eq),
        kept(s.push(x), keep.push(b)) == if b {
            kept(s, keep).push(x)
        } else {
            kept(s, keep)
        },
{
    let s2 = s.push(x);
    let k2 = keep.push(b);
    assert(s2.drop_last() =~= s);
    assert(k2.drop_last() =~= keep);
    assert forall|k: int| 0 <= k < s2.len() implies #[trigger] requirement_kept_step(
        kept(s2.take(k), k2.take(k)),
        s2[k],
        k2[k],
        eq,
    ) by {
        if k < s.len() {
            assert(s2.take(k) =~= s.take(k));
            assert(k2.take(k) =~= keep.take(k));
            assert(requirement_kept_step(kept(s.take(k), keep.take(k)), s[k], keep[k], eq));
        } else {
            assert(s2.take(k) =~= s);
            assert(k2.take(k) =~= keep);
        }
    }
}

/// `copies` copies the system's causal models, in order, and `keep` marks
/// those that `confident` accepts and that succeeded more than once.
pub open spec fn confident_choice<V: Clone, C: Clone, K: Fn(&C) -> bool>(
    models: StrMap<Mdl<V, C>>,
    copies: Seq<Mdl<V, C>>,
    keep: Seq<bool>,
    confident: K,
) -> bool {
    &&& copies.len() == causal_models_of(models).len()
    &&& keep.len() == copies.len()
    &&& forall|i: int| 0 <= i < copies.len() ==> mdl_cloned(causal_models_of(models)[i], #[trigger] copies[i])
    &&& forall|i: int|
        0 <= i < copies.len() ==> (#[trigger] keep[i] ==> confident.ensures((&copies[i].confidence,), true)
            && copies[i].success_count > 1)
    &&& forall|i: int|
        0 <= i < copies.len() ==> (!#[trigger] keep[i] ==> confident.ensures((&copies[i].confidence,), false)
            || copies[i].success_count <= 1)
}

/// `sm` copies the system's assumption models and then its state
/// prediction models, in order.
pub open spec fn prediction_copies<V: Clone, C: Clone>(models: StrMap<Mdl<V, C>>, sm: Seq<Mdl<V, C>>) -> bool {
    let a = assumption_models_of(models);
    let p = prediction_models_of(models);
    &&& sm.len() == a.len() + p.len()
    &&& forall|i: int| 0 <= i < a.len() ==> mdl_cloned(#[trigger] a[i], sm[i])
    &&& forall|i: int| 0 <= i < p.len() ==> mdl_cloned(#[trigger] p[i], sm[a.len() + i])
}

/// What instantiating the requirement model `m` from the composite state
/// instances of `state` may give (see `Mdl::try_instantiate_with_icst`).
pub open spec fn req_instances<
    V: Clone,
    C: Clone,
    E: Fn(&V, &V) -> bool,
    A: Fn(&V) -> Option<Vec<V>>,
    M: Fn(Vec<V>) -> V,
    O: Fn(ArithOp, V, V) -> Option<V>,
    T: Fn(V) -> Option<V>,
    N: Fn(V) -> Option<V>,
>(
    m: Mdl<V, C>,
    state: SystemState<V>,
    eq: E,
    as_vec: A,
    make_vec: M,
    arith: O,
    to_entity_id: T,
    to_number: N,
    bounds: Seq<BoundModel<V, C>>,
) -> bool {
    match m.left.pattern {
        MdlLeftValue::ICst(icst) => exists|idx: Seq<int>|
            #[trigger] bound_from_instances(
                m,
                icst,
                instances_of(state.instansiated_csts@, icst.cst_id@),
                bounds,
                idx,
                eq,
                as_vec,
                make_vec,
                arith,
                to_entity_id,
                to_number,
            ),
        _ => bounds.len() == 0,
    }
}

/// The instantiations of the pieces, one piece after another.
pub open spec fn imdl_pieces<V: Clone>(pieces: Seq<Seq<IMdl<V>>>) -> Seq<IMdl<V>>
    decreases pieces.len(),
{
    if pieces.len() == 0 {
        seq![]
    } else {
        imdl_pieces(pieces.drop_last()) + pieces.last()
    }
}

/// `piece` holds the right-hand side of the requirement model `m`, where it
/// is an instantiation, filled in with the bindings of each of `bounds`, in
/// order; nothing where it is not.
pub open spec fn reached_piece<V: Clone, C>(m: Mdl<V, C>, bounds: Seq<BoundModel<V, C>>, piece: Seq<IMdl<V>>) -> bool {
    match m.right.pattern {
        MdlRightValue::IMdl(imdl) => {
            &&& piece.len() == bounds.len()
            &&& forall|j: int| 0 <= j < piece.len() ==> imdl_filled(imdl, #[trigger] piece[j], bounds[j].bindings@)
        },
        _ => piece.len() == 0,
    }
}

/// `inst` holds the instantiations that the current state reaches: for
/// each copy of a requirement model of the system, in order, its
/// right-hand side filled in with each bound model that instantiating it
/// from the state's composite state instances gives.
pub open spec fn reached_instantiations<
    V: Clone,
    C: Clone,
    E: Fn(&V, &V) -> bool,
    A: Fn(&V) -> Option<Vec<V>>,
    M: Fn(Vec<V>) -> V,
    O: Fn(ArithOp, V, V) -> Option<V>,
    T: Fn(V) -> Option<V>,
    N: Fn(V) -> Option<V>,
>(
    data: System<V, C>,
    eq: E,
    as_vec: A,
    make_vec: M,
    arith: O,
    to_entity_id: T,
    to_number: N,
    rcopies: Seq<Mdl<V, C>>,
    bounds: Seq<Seq<BoundModel<V, C>>>,
    pieces: Seq<Seq<IMdl<V>>>,
    inst: Seq<IMdl<V>>,
) -> bool {
    &&& rcopies.len() == req_models_of(data.models).len()
    &&& forall|i: int| 0 <= i < rcopies.len() ==> mdl_cloned(req_models_of(data.models)[i], #[trigger] rcopies[i])
    &&& bounds.len() == rcopies.len()
    &&& pieces.len() == rcopies.len()
    &&& forall|k: int|
        0 <= k < rcopies.len() ==> #[trigger] req_instances(
            rcopies[k],
            data.current_state,
            eq,
            as_vec,
            make_vec,
            arith,
            to_entity_id,
            to_number,
            bounds[k],
        ) && reached_piece(rcopies[k], bounds[k], pieces[k])
    &&& inst == imdl_pieces(pieces)
}

/// What backward chaining gives for the goal: `copies` and `keep` choose
/// the confident causal models, `sm` the assumption and state prediction
/// models, `inst` the instantiations reached from the current state (see
/// `reached_instantiations`);
/// `levels` are the levels of goals looked at from the goal itself at depth
/// 0 (see `run_get_goal_requirements_for_goal`), and `r` holds the first of
/// each group of their requirements that `eq` answers the same (`dkeep`).
pub open spec fn backward_chain_answer<
    V: Clone,
    C: Clone,
    K: Fn(&C) -> bool,
    E: Fn(&V, &V) -> bool,
    A: Fn(&V) -> Option<Vec<V>>,
    M: Fn(Vec<V>) -> V,
    O: Fn(ArithOp, V, V) -> Option<V>,
    T: Fn(V) -> Option<V>,
    N: Fn(V) -> Option<V>,
    F: Fn(&V) -> Option<String>,
    I: Fn(&V) -> String,
    G: Fn(&String) -> V,
>(
    goal: Fact<MkVal<V>>,
    data: System<V, C>,
    confident: K,
    eq: E,
    as_vec: A,
    make_vec: M,
    arith: O,
    to_entity_id: T,
    to_number: N,
    entity_id_of: F,
    id_of: I,
    entity_value: G,
    copies: Seq<Mdl<V, C>>,
    keep: Seq<bool>,
    sm: Seq<Mdl<V, C>>,
    rcopies: Seq<Mdl<V, C>>,
    bounds: Seq<Seq<BoundModel<V, C>>>,
    pieces: Seq<Seq<IMdl<V>>>,
    inst: Seq<IMdl<V>>,
    levels: Seq<Seq<(Fact<MkVal<V>>, usize, Seq<(IMdl<V>, usize)>, bool, Seq<Fact<MkVal<V>>>)>>,
    lists: Seq<(Seq<(Fact<MkVal<V>>, usize)>, Seq<(ICst<V>, usize)>)>,
    dkeep: Seq<bool>,
    r: Seq<(IMdl<V>, usize)>,
) -> bool {
    &&& confident_choice(data.models, copies, keep, confident)
    &&& prediction_copies(data.models, sm)
    &&& reached_instantiations(data, eq, as_vec, make_vec, arith, to_entity_id, to_number, rcopies, bounds, pieces, inst)
    &&& bfs_levels(goal, levels)
    &&& requirement_blocks(
        blocks_of(levels),
        lists,
        kept(copies, keep) + sm,
        inst,
        data,
        eq,
        as_vec,
        make_vec,
        arith,
        to_entity_id,
        to_number,
        entity_id_of,
        id_of,
        entity_value,
    )
    &&& lists[0] == (Seq::<(Fact<MkVal<V>>, usize)>::empty(), Seq::<(ICst<V>, usize)>::empty())
    &&& first_requirements(blocks_requirements(blocks_of(levels)), dkeep, eq)
    &&& r == kept(blocks_requirements(blocks_of(levels)), dkeep)
}

/// Backward chaining from a goal: the instantiations of the models that
/// lead to it, with the depth at which each was found, each once. The
/// requirement models instantiated from the current state tell which
/// instantiations the state reaches; the causal models used are those that
/// `confident` accepts and that succeeded more than once, besides the
/// assumption and state prediction models.
pub fn backward_chain<
    V: Clone,
    C: Clone,
    K: Fn(&C) -> bool,
    E: Fn(&V, &V) -> bool,
    A: Fn(&V) -> Option<Vec<V>>,
    M: Fn(Vec<V>) -> V,
    O: Fn(ArithOp, V, V) -> Option<V>,
    T: Fn(V) -> Option<V>,
    N: Fn(V) -> Option<V>,
    F: Fn(&V) -> Option<String>,
    I: Fn(&V) -> String,
    G: Fn(&String) -> V,
>(
    goal: &Fact<MkVal<V>>,
    data: &System<V, C>,
    confident: &K,
    eq: &E,
    as_vec: &A,
    make_vec: &M,
    arith: &O,
    to_entity_id: &T,
    to_number: &N,
    entity_id_of: &F,
    id_of: &I,
    entity_value: &G,
) -> (r: Vec<(IMdl<V>, usize)>)
    requires
        value_ops_sound(*eq, *as_vec, *make_vec),
        arith_decides(*arith),
        conv_decides(*to_entity_id),
        conv_decides(*to_number),
        forall|v: &V| entity_id_of.requires((v,)),
        ids_decided(*id_of),
        entity_values_decided(*entity_value),
        forall|c: &C| confident.requires((c,)),
    ensures
        forall|i: int|
            0 <= i < r@.len() ==> (#[trigger] r@[i]).1 < MAX_DEPTH && chains_through(
                data.models,
                *confident,
                r@[i].0.model_id@,
            ),
        forall|i: int, j: int|
            0 <= i < j < r@.len() ==> requirements_same_answer(
                #[trigger] r@[i],
                #[trigger] r@[j],
                *eq,
                false,
            ),
        exists|
            copies: Seq<Mdl<V, C>>,
            keep: Seq<bool>,
            sm: Seq<Mdl<V, C>>,
            rcopies: Seq<Mdl<V, C>>,
            bounds: Seq<Seq<BoundModel<V, C>>>,
            pieces: Seq<Seq<IMdl<V>>>,
            inst: Seq<IMdl<V>>,
            levels: Seq<Seq<(Fact<MkVal<V>>, usize, Seq<(IMdl<V>, usize)>, bool, Seq<Fact<MkVal<V>>>)>>,
            lists: Seq<(Seq<(Fact<MkVal<V>>, usize)>, Seq<(ICst<V>, usize)>)>,
            dkeep: Seq<bool>,
        |
            #[trigger] backward_chain_answer(
                *goal,
                *data,
                *confident,
                *eq,
                *as_vec,
                *make_vec,
                *arith,
                *to_entity_id,
                *to_number,
                entity_id_of,
                *id_of,
                *entity_value,
                copies,
                keep,
                sm,
                rcopies,
                bounds,
                pieces,
                inst,
                levels,
                lists,
                dkeep,
                r@,
            ),
{
    let mut instantiable: Vec<IMdl<V>> = Vec::new();
    let req_models = all_req_models(data);
    let ghost rcopies = req_models@;
    let ghost mut gbounds: Seq<Seq<BoundModel<V, C>>> = seq![];
    let ghost mut pieces: Seq<Seq<IMdl<V>>> = seq![];
    let mut k: usize = 0;
    while k < req_models.len()
        invariant
            k <= req_models@.len(),
            rcopies == req_models@,
            rcopies.len() == req_models_of(data.models).len(),
            forall|i: int| 0 <= i < rcopies.len() ==> mdl_cloned(req_models_of(data.models)[i], #[trigger] rcopies[i]),
            value_ops_sound(*eq, *as_vec, *make_vec),
            arith_decides(*arith),
            conv_decides(*to_entity_id),
            conv_decides(*to_number),
            gbounds.len() == k,
            pieces.len() == k,
            forall|x: int|
                0 <= x < k ==> #[trigger] req_instances(
                    rcopies[x],
                    data.current_state,
                    *eq,
                    *as_vec,
                    *make_vec,
                    *arith,
                    *to_entity_id,
                    *to_number,
                    gbounds[x],
                ) && reached_piece(rcopies[x], gbounds[x], pieces[x]),
            instantiable@ == imdl_pieces(pieces),
        decreases req_models@.len() - k,
    {
        let m_req = &req_models[k];
        let bound = m_req.try_instantiate_with_icst(
            &data.current_state,
            eq,
            as_vec,
            make_vec,
            arith,
            to_entity_id,
            to_number,
        );
        assert(req_instances(*m_req, data.current_state, *eq, *as_vec, *make_vec, *arith, *to_entity_id, *to_number, bound@));
        let ghost start = instantiable@;
        let ghost mut piece: Seq<IMdl<V>> = seq![];
        match &m_req.right.pattern {
            MdlRightValue::IMdl(imdl) => {
                let mut b: usize = 0;
                while b < bound.len()
                    invariant
                        b <= bound@.len(),
                        piece.len() == b,
                        forall|j: int| 0 <= j < b ==> imdl_filled(*imdl, #[trigger] piece[j], bound@[j].bindings@),
                        instantiable@ == start + piece,
                    decreases bound@.len() - b,
                {
                    let filled = imdl.filled_in(&bound[b].bindings);
                    proof {
                        piece = piece.push(filled);
                    }
                    instantiable.push(filled);
                    assert(instantiable@ =~= start + piece);
                    b = b + 1;
                }
            },
            _ => {
                assert(instantiable@ =~= start + piece);
            },
        }
        assert(reached_piece(*m_req, bound@, piece));
        proof {
            let np = pieces.push(piece);
            let nb = gbounds.push(bound@);
            assert(np.drop_last() =~= pieces);
            assert(imdl_pieces(np) == imdl_pieces(pieces) + piece);
            assert forall|x: int| 0 <= x < k + 1 implies #[trigger] req_instances(
                rcopies[x],
                data.current_state,
                *eq,
                *as_vec,
                *make_vec,
                *arith,
                *to_entity_id,
                *to_number,
                nb[x],
            ) && reached_piece(rcopies[x], nb[x], np[x]) by {
                if x < k {
                    assert(nb[x] == gbounds[x]);
                    assert(np[x] == pieces[x]);
                }
            }
            pieces = np;
            gbounds = nb;
        }
        k = k + 1;
    }
    assert(reached_instantiations(
        *data,
        *eq,
        *as_vec,
        *make_vec,
        *arith,
        *to_entity_id,
        *to_number,
        rcopies,
        gbounds,
        pieces,
        instantiable@,
    ));
    let all_causal = all_causal_models(data);
    let ghost copies = all_causal@;
    let ghost causal_src = causal_models_of(data.models);
    let n_causal = all_causal.len();
    let mut rest = all_causal;
    let mut casual_models: Vec<Mdl<V, C>> = Vec::new();
    let ghost mut keep: Seq<bool> = seq![];
    let mut k: usize = 0;
    assert(copies.skip(0) =~= copies);
    assert(copies.take(0) =~= Seq::<Mdl<V, C>>::empty());
    while rest.len() > 0
        invariant
            k <= copies.len(),
            copies.len() == n_causal,
            copies.len() == causal_src.len(),
            forall|x: int| 0 <= x < copies.len() ==> mdl_cloned(causal_src[x], #[trigger] copies[x]),
            causal_src == causal_models_of(data.models),
            rest@ == copies.skip(k as int),
            keep.len() == k,
            casual_models@ == kept(copies.take(k as int), keep),
            forall|c: &C| confident.requires((c,)),
            forall|i: int|
                0 <= i < k ==> (#[trigger] keep[i] ==> confident.ensures((&copies[i].confidence,), true)
                    && copies[i].success_count > 1),
            forall|i: int|
                0 <= i < k ==> (!#[trigger] keep[i] ==> confident.ensures((&copies[i].confidence,), false)
                    || copies[i].success_count <= 1),
            confident_provenance(casual_models@, data.models),
        decreases rest@.len(),
    {
        let m = rest.remove(0);
        assert(m == copies[k as int]);
        assert(rest@ =~= copies.skip(k + 1));
        let ok = confident(&m.confidence) && m.success_count > 1;
        let ghost before = casual_models@;
        proof {
            assert(copies.take(k + 1).drop_last() =~= copies.take(k as int));
            assert(keep.push(ok).drop_last() =~= keep);
            assert(copies.take(k + 1).last() == m);
        }
        if ok {
            assert(mdl_cloned(causal_src[k as int], m));
            assert(causal_models_of(data.models)[k as int].model_id@ == m.model_id@);
            casual_models.push(m);
            assert forall|i: int| 0 <= i < casual_models@.len() implies exists|x: int|
                0 <= x < causal_models_of(data.models).len() && (#[trigger] causal_models_of(
                    data.models,
                )[x]).model_id@ == (#[trigger] casual_models@[i]).model_id@ && causal_models_of(
                    data.models,
                )[x].success_count > 1 by {
                if i < before.len() {
                    assert(casual_models@[i] == before[i]);
                } else {
                    assert(causal_models_of(data.models)[k as int].model_id@ == casual_models@[i].model_id@);
                }
            }
        }
        proof {
            keep = keep.push(ok);
        }
        k = k + 1;
    }
    assert(copies.take(copies.len() as int) =~= copies);
    assert(confident_choice(data.models, copies, keep, *confident));
    let mut state_prediction_models = all_assumption_models(data);
    let mut predictions = all_state_prediction_models(data);
    let ghost assumption_part = state_prediction_models@;
    let ghost prediction_part = predictions@;
    state_prediction_models.append(&mut predictions);
    assert(prediction_copies(data.models, state_prediction_models@)) by {
        assert forall|i: int| 0 <= i < prediction_part.len() implies mdl_cloned(
            #[trigger] prediction_models_of(data.models)[i],
            state_prediction_models@[assumption_part.len() + i],
        ) by {
            assert(state_prediction_models@[assumption_part.len() + i] == prediction_part[i]);
        }
        assert forall|i: int| 0 <= i < assumption_part.len() implies mdl_cloned(
            #[trigger] assumption_models_of(data.models)[i],
            state_prediction_models@[i],
        ) by {
            assert(state_prediction_models@[i] == assumption_part[i]);
        }
    }
    assert(kind_provenance(state_prediction_models@, data.models)) by {
    assert forall|i: int| 0 <= i < state_prediction_models@.len() implies exists|x: int|
        0 <= x < assumption_models_of(data.models).len() && (#[trigger] assumption_models_of(
            data.models,
        )[x]).model_id@ == (#[trigger] state_prediction_models@[i]).model_id@ || exists|x: int|
        0 <= x < prediction_models_of(data.models).len() && (#[trigger] prediction_models_of(
            data.models,
        )[x]).model_id@ == state_prediction_models@[i].model_id@ by {
        if i < assumption_part.len() {
            assert(state_prediction_models@[i] == assumption_part[i]);
            assert(mdl_cloned(assumption_models_of(data.models)[i], assumption_part[i]));
            assert(assumption_models_of(data.models)[i].model_id@ == state_prediction_models@[i].model_id@);
        } else {
            let x = i - assumption_part.len();
            assert(state_prediction_models@[i] == prediction_part[x]);
            assert(mdl_cloned(prediction_models_of(data.models)[x], prediction_part[x]));
            assert(prediction_models_of(data.models)[x].model_id@ == state_prediction_models@[i].model_id@);
        }
    }
    }
    let mut observed_goals: Vec<(Fact<MkVal<V>>, usize)> = Vec::new();
    let mut observed_csts: Vec<(ICst<V>, usize)> = Vec::new();
    let results = run_get_goal_requirements_for_goal(
        goal,
        &instantiable,
        &casual_models,
        &state_prediction_models,
        data,
        &mut observed_goals,
        &mut observed_csts,
        eq,
        as_vec,
        make_vec,
        arith,
        to_entity_id,
        to_number,
        entity_id_of,
        id_of,
        entity_value,
    );
    let ghost all = results@;
    let n_results = results.len();
    let ghost (levels, lists) = choose|levels: Seq<Seq<(Fact<MkVal<V>>, usize, Seq<(IMdl<V>, usize)>, bool, Seq<Fact<MkVal<V>>>)>>, lists: Seq<(Seq<(Fact<MkVal<V>>, usize)>, Seq<(ICst<V>, usize)>)>|
        #[trigger] bfs_levels(*goal, levels) && #[trigger] requirement_blocks(
            blocks_of(levels),
            lists,
            casual_models@ + state_prediction_models@,
            instantiable@,
            *data,
            *eq,
            *as_vec,
            *make_vec,
            *arith,
            *to_entity_id,
            *to_number,
            entity_id_of,
            *id_of,
            *entity_value,
        ) && lists[0] == (Seq::<(Fact<MkVal<V>>, usize)>::empty(), Seq::<(ICst<V>, usize)>::empty())
            && all == blocks_requirements(blocks_of(levels));
    let mut rest = results;
    let mut out: Vec<(IMdl<V>, usize)> = Vec::new();
    let ghost mut dkeep: Seq<bool> = seq![];
    let mut i: usize = 0;
    assert(all.skip(0) =~= all);
    assert(all.take(0) =~= Seq::<(IMdl<V>, usize)>::empty());
    while rest.len() > 0
        invariant
            i <= all.len(),
            all.len() == n_results,
            rest@ == all.skip(i as int),
            value_ops_sound(*eq, *as_vec, *make_vec),
            forall|x: int|
                0 <= x < all.len() ==> (#[trigger] all[x]).1 < MAX_DEPTH && from_models(
                    all[x].0.model_id@,
                    casual_models@,
                    state_prediction_models@,
                ),
            confident_provenance(casual_models@, data.models),
            kind_provenance(state_prediction_models@, data.models),
            dkeep.len() == i,
            first_requirements(all.take(i as int), dkeep, *eq),
            out@ == kept(all.take(i as int), dkeep),
            forall|x: int|
                0 <= x < out@.len() ==> (#[trigger] out@[x]).1 < MAX_DEPTH && chains_through(
                    data.models,
                    *confident,
                    out@[x].0.model_id@,
                ),
            forall|x: int, y: int|
                0 <= x < y < out@.len() ==> requirements_same_answer(
                    #[trigger] out@[x],
                    #[trigger] out@[y],
                    *eq,
                    false,
                ),
        decreases rest@.len(),
    {
        let c = rest.remove(0);
        assert(c == all[i as int]);
        assert(rest@ =~= all.skip(i + 1));
        let mut dup = false;
        let mut j: usize = 0;
        while j < out.len() && !dup
            invariant
                j <= out@.len(),
                value_ops_sound(*eq, *as_vec, *make_vec),
                dup ==> exists|y: int| 0 <= y < out@.len() && #[trigger] requirements_same_answer(out@[y], c, *eq, true),
                !dup ==> forall|y: int|
                    0 <= y < j ==> requirements_same_answer(#[trigger] out@[y], c, *eq, false),
            decreases out@.len() - j,
        {
            if requirements_same(&out[j], &c, eq) {
                dup = true;
            }
            j = j + 1;
        }
        proof {
            assert(all.take(i + 1) =~= all.take(i as int).push(c));
            assert(requirement_kept_step(kept(all.take(i as int), dkeep), c, !dup, *eq));
            lemma_first_requirements_push(all.take(i as int), dkeep, c, !dup, *eq);
        }
        if !dup {
            proof {
                let id = c.0.model_id@;
                assert(from_models(id, casual_models@, state_prediction_models@));
                if exists|x: int| 0 <= x < casual_models@.len() && (#[trigger] casual_models@[x]).model_id@ == id {
                    let x = choose|x: int| 0 <= x < casual_models@.len() && (#[trigger] casual_models@[x]).model_id@ == id;
                    assert(casual_models@[x].model_id@ == id);
                } else {
                    let x = choose|x: int|
                        0 <= x < state_prediction_models@.len() && (#[trigger] state_prediction_models@[x]).model_id@ == id;
                    assert(state_prediction_models@[x].model_id@ == id);
                }
                assert(chains_through(data.models, *confident, id));
            }
            let ghost before = out@;
            out.push(c);
            assert forall|x: int, y: int| 0 <= x < y < out@.len() implies requirements_same_answer(
                #[trigger] out@[x],
                #[trigger] out@[y],
                *eq,
                false,
            ) by {
                if y < before.len() {
                    assert(out@[x] == before[x] && out@[y] == before[y]);
                }
            }
        }
        proof {
            dkeep = dkeep.push(!dup);
        }
        i = i + 1;
    }
    assert(all.take(all.len() as int) =~= all);
    assert(backward_chain_answer(
        *goal,
        *data,
        *confident,
        *eq,
        *as_vec,
        *make_vec,
        *arith,
        *to_entity_id,
        *to_number,
        entity_id_of,
        *id_of,
        *entity_value,
        copies,
        keep,
        state_prediction_models@,
        rcopies,
        gbounds,
        pieces,
        instantiable@,
        levels,
        lists,
        dkeep,
        out@,
    ));
    out
}


} // verus!
