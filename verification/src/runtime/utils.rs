//! What a system knows, read off in bulk: its models of each kind, and the
//! instances of its composite states in a state of the world.

use vstd::prelude::*;
use crate::runtime::pattern_matching::{
    as_vec_reads, clones_equal, eq_answers, value_ops_sound, value_with_bindings,
};
use crate::str_map::{entries_map, lemma_entries_map_contains, KeyMap, StrMap};
use crate::types::cst::{BoundCst, Cst};
use crate::types::functions::{arith_decides, conv_decides, ArithOp};
use crate::types::instances::{
    bound_from_instances, icst_instance_answer, icst_instance_bindings, instances_of,
};
use crate::types::models::{computed_after, mdl_cloned, BoundModel, Mdl, MdlLeftValue, MdlRightValue};
use crate::types::runtime::{System, SystemState};
use crate::types::state_instances::{entity_values_decided, id_read, ids_decided, state_instances};
use crate::types::{EntityPatternValue, MkVal};

verus! {

/// The kinds of model that the system is asked for.
enum ModelKind {
    Causal,
    Req,
    Assumption,
    StatePrediction,
}

/// Whether a model is of the kind: causal, a command or instantiated model
/// bringing about a variable value; a requirement, a composite state
/// enabling an instantiated model; an assumption or a state prediction, a
/// composite state giving a variable value that is assumed, or not.
pub open spec fn model_of_kind<V: Clone, C>(m: Mdl<V, C>, causal: bool, req: bool, assumption: bool, prediction: bool) -> bool {
    ||| causal && (m.left.pattern is Command || m.left.pattern is IMdl) && m.right.pattern is MkVal
    ||| req && m.left.pattern is ICst && m.right.pattern is IMdl
    ||| assumption && m.left.pattern is ICst && m.right.pattern is MkVal
        && m.right.pattern->MkVal_0.assumption
    ||| prediction && m.left.pattern is ICst && m.right.pattern is MkVal
        && !m.right.pattern->MkVal_0.assumption
}

/// The models of the system, in the order they were added, that the
/// predicate selects.
pub open spec fn models_where<V: Clone, C>(
    models: StrMap<Mdl<V, C>>,
    pred: spec_fn(Mdl<V, C>) -> bool,
) -> Seq<Mdl<V, C>> {
    models.entries_view().map_values(|e: (Seq<char>, Mdl<V, C>)| e.1).filter(pred)
}

spec fn kind_flags(kind: ModelKind) -> (bool, bool, bool, bool) {
    match kind {
        ModelKind::Causal => (true, false, false, false),
        ModelKind::Req => (false, true, false, false),
        ModelKind::Assumption => (false, false, true, false),
        ModelKind::StatePrediction => (false, false, false, true),
    }
}

spec fn kind_pred<V: Clone, C>(kind: ModelKind) -> spec_fn(Mdl<V, C>) -> bool {
    let f = kind_flags(kind);
    |m: Mdl<V, C>| model_of_kind(m, f.0, f.1, f.2, f.3)
}

/// Copies of the models of the kind, in order.
fn models_of_kind<V: Clone, C: Clone>(models: &StrMap<Mdl<V, C>>, kind: ModelKind) -> (r: Vec<
    Mdl<V, C>,
>)
    ensures
        r@.len() == models_where(*models, kind_pred(kind)).len(),
        forall|i: int|
            0 <= i < r@.len() ==> mdl_cloned(models_where(*models, kind_pred(kind))[i], #[trigger] r@[i]),
{
    let ghost all = models.entries_view().map_values(|e: (Seq<char>, Mdl<V, C>)| e.1);
    let ghost pred = kind_pred::<V, C>(kind);
    let mut out: Vec<Mdl<V, C>> = Vec::new();
    let n = models.len();
    let mut i: usize = 0;
    while i < n
        invariant
            i <= n,
            n == models.entries_view().len(),
            all == models.entries_view().map_values(|e: (Seq<char>, Mdl<V, C>)| e.1),
            pred == kind_pred::<V, C>(kind),
            out@.len() == all.take(i as int).filter(pred).len(),
            forall|t: int|
                0 <= t < out@.len() ==> mdl_cloned(all.take(i as int).filter(pred)[t], #[trigger] out@[t]),
        decreases n - i,
    {
        let (_, m) = models.entry_at(i);
        assert(all.take(i + 1).drop_last() =~= all.take(i as int));
        assert(all.take(i + 1).last() == *m);
        let selected = match kind {
            ModelKind::Causal => m.is_casual_model(),
            ModelKind::Req => m.is_req_model(),
            ModelKind::Assumption => m.is_assumption_model(),
            ModelKind::StatePrediction => m.is_state_prediction(),
        };
        assert(selected == pred(*m));
        assert(all.take(i + 1).filter(pred) == if pred(*m) {
            all.take(i as int).filter(pred).push(*m)
        } else {
            all.take(i as int).filter(pred)
        }) by {
            reveal(Seq::filter);
        }
        if selected {
            out.push(m.clone());
        }
        i = i + 1;
    }
    assert(all.take(n as int) =~= all);
    out
}

/// Copies of the causal models, in order.
pub fn all_causal_models<V: Clone, C: Clone>(data: &System<V, C>) -> (r: Vec<Mdl<V, C>>)
    ensures
        r@.len() == models_where(data.models, |m: Mdl<V, C>| model_of_kind(m, true, false, false, false)).len(),
        forall|i: int|
            0 <= i < r@.len() ==> mdl_cloned(
                models_where(data.models, |m: Mdl<V, C>| model_of_kind(m, true, false, false, false))[i],
                #[trigger] r@[i],
            ),
{
    let r = models_of_kind(&data.models, ModelKind::Causal);
    assert(kind_pred::<V, C>(ModelKind::Causal) =~= (|m: Mdl<V, C>| model_of_kind(m, true, false, false, false)));
    r
}

/// Copies of the requirement models, in order.
pub fn all_req_models<V: Clone, C: Clone>(data: &System<V, C>) -> (r: Vec<Mdl<V, C>>)
    ensures
        r@.len() == models_where(data.models, |m: Mdl<V, C>| model_of_kind(m, false, true, false, false)).len(),
        forall|i: int|
            0 <= i < r@.len() ==> mdl_cloned(
                models_where(data.models, |m: Mdl<V, C>| model_of_kind(m, false, true, false, false))[i],
                #[trigger] r@[i],
            ),
{
    let r = models_of_kind(&data.models, ModelKind::Req);
    assert(kind_pred::<V, C>(ModelKind::Req) =~= (|m: Mdl<V, C>| model_of_kind(m, false, true, false, false)));
    r
}

/// Copies of the assumption models, in order.
pub fn all_assumption_models<V: Clone, C: Clone>(data: &System<V, C>) -> (r: Vec<Mdl<V, C>>)
    ensures
        r@.len() == models_where(data.models, |m: Mdl<V, C>| model_of_kind(m, false, false, true, false)).len(),
        forall|i: int|
            0 <= i < r@.len() ==> mdl_cloned(
                models_where(data.models, |m: Mdl<V, C>| model_of_kind(m, false, false, true, false))[i],
                #[trigger] r@[i],
            ),
{
    let r = models_of_kind(&data.models, ModelKind::Assumption);
    assert(kind_pred::<V, C>(ModelKind::Assumption) =~= (|m: Mdl<V, C>| model_of_kind(m, false, false, true, false)));
    r
}

/// Copies of the state prediction models, in order.
pub fn all_state_prediction_models<V: Clone, C: Clone>(data: &System<V, C>) -> (r: Vec<Mdl<V, C>>)
    ensures
        r@.len() == models_where(data.models, |m: Mdl<V, C>| model_of_kind(m, false, false, false, true)).len(),
        forall|i: int|
            0 <= i < r@.len() ==> mdl_cloned(
                models_where(data.models, |m: Mdl<V, C>| model_of_kind(m, false, false, false, true))[i],
                #[trigger] r@[i],
            ),
{
    let r = models_of_kind(&data.models, ModelKind::StatePrediction);
    assert(kind_pred::<V, C>(ModelKind::StatePrediction) =~= (|m: Mdl<V, C>| model_of_kind(m, false, false, false, true)));
    r
}

/// The model gives a variable a value from the instances of its left-hand
/// composite state: a composite state on the left, a variable on the
/// right that is assumed, or is not.
pub open spec fn predicts_from_state<V: Clone, C>(m: Mdl<V, C>, assumption: bool) -> bool {
    &&& m.left.pattern is ICst
    &&& m.right.pattern is MkVal
    &&& m.right.pattern->MkVal_0.assumption == assumption
}

/// The id of an entity under bindings: its own, or the one `id_of` reads
/// from the value of its binding.
pub open spec fn entity_id_under<V, I: Fn(&V) -> String>(
    e: EntityPatternValue,
    m: Map<Seq<char>, V>,
    id_of: I,
) -> Seq<char> {
    match e {
        EntityPatternValue::Binding(b) => id_read(id_of, m[b@]),
        EntityPatternValue::EntityId(id) => id@,
    }
}

/// The variable values that the bound models `bms` give the variable
/// pattern `mv`, in order: its entity and its value under each one's
/// bindings.
pub open spec fn instance_values<V: Clone, C, M: Fn(Vec<V>) -> V, I: Fn(&V) -> String>(
    mv: MkVal<V>,
    bms: Seq<BoundModel<V, C>>,
    id_of: I,
    make_vec: M,
) -> Seq<((Seq<char>, Seq<char>), V)> {
    bms.map_values(
        |b: BoundModel<V, C>|
            (
                (entity_id_under(mv.entity_id, b.bindings@, id_of), mv.var_name@),
                value_with_bindings(mv.value, b.bindings@, make_vec)->Some_0,
            ),
    )
}

/// Every instance of the model's left-hand state that its instantiation
/// matches binds, once the model's forward functions are computed, the
/// entity of its right-hand variable and everything its value needs.
pub open spec fn instances_give_values<
    V: Clone,
    C: Clone,
    E: Fn(&V, &V) -> bool,
    A: Fn(&V) -> Option<Vec<V>>,
    M: Fn(Vec<V>) -> V,
    O: Fn(ArithOp, V, V) -> Option<V>,
    T: Fn(V) -> Option<V>,
    N: Fn(V) -> Option<V>,
>(
    m: Mdl<V, C>,
    states: Map<Seq<char>, Vec<BoundCst<V>>>,
    eq: E,
    as_vec: A,
    make_vec: M,
    arith: O,
    to_entity_id: T,
    to_number: N,
) -> bool {
    let icst = m.left.pattern->ICst_0;
    let mv = m.right.pattern->MkVal_0;
    forall|i: int|
        0 <= i < instances_of(states, icst.cst_id@).len() && icst_instance_answer(
            #[trigger] instances_of(states, icst.cst_id@)[i],
            icst,
            eq,
            as_vec,
            true,
        ) ==> {
            let bb = computed_after(
                icst_instance_bindings(instances_of(states, icst.cst_id@)[i], icst, as_vec, make_vec),
                m.forward_computed@,
                make_vec,
                arith,
                to_entity_id,
                to_number,
            );
            &&& mv.entity_id is Binding ==> bb.contains_key(mv.entity_id->Binding_0@)
            &&& value_with_bindings(mv.value, bb, make_vec) is Some
        }
}

/// One way `state_values` holds: `per[i]` are the bound models that the
/// `i`-th model of the system gives from the state's instances, none for a
/// model of another kind.
pub open spec fn state_values_with<
    V: Clone,
    C: Clone,
    E: Fn(&V, &V) -> bool,
    A: Fn(&V) -> Option<Vec<V>>,
    M: Fn(Vec<V>) -> V,
    O: Fn(ArithOp, V, V) -> Option<V>,
    T: Fn(V) -> Option<V>,
    N: Fn(V) -> Option<V>,
    I: Fn(&V) -> String,
>(
    system: System<V, C>,
    state: SystemState<V>,
    assumption: bool,
    r: Map<(Seq<char>, Seq<char>), V>,
    per: Seq<Seq<BoundModel<V, C>>>,
    eq: E,
    as_vec: A,
    make_vec: M,
    arith: O,
    to_entity_id: T,
    to_number: N,
    id_of: I,
) -> bool {
    let entries = system.models.entries_view();
    &&& per.len() == entries.len()
    &&& forall|i: int|
        0 <= i < entries.len() ==> if predicts_from_state(#[trigger] entries[i].1, assumption) {
            exists|idx: Seq<int>|
                bound_from_instances(
                    entries[i].1,
                    entries[i].1.left.pattern->ICst_0,
                    instances_of(
                        state.instansiated_csts@,
                        entries[i].1.left.pattern->ICst_0.cst_id@,
                    ),
                    per[i],
                    idx,
                    eq,
                    as_vec,
                    make_vec,
                    arith,
                    to_entity_id,
                    to_number,
                )
        } else {
            per[i].len() == 0
        }
    &&& r == entries_map(
        Seq::new(
            entries.len(),
            |i: int| instance_values(entries[i].1.right.pattern->MkVal_0, per[i], id_of, make_vec),
        ).flatten_alt(),
    )
}

/// `r` holds, by entity and variable, the values that the system's models
/// of the kind give from the instances of their states in `state`: model
/// after model in the order they were added, instance after instance, a
/// later value overriding an earlier one.
pub open spec fn state_values<
    V: Clone,
    C: Clone,
    E: Fn(&V, &V) -> bool,
    A: Fn(&V) -> Option<Vec<V>>,
    M: Fn(Vec<V>) -> V,
    O: Fn(ArithOp, V, V) -> Option<V>,
    T: Fn(V) -> Option<V>,
    N: Fn(V) -> Option<V>,
    I: Fn(&V) -> String,
>(
    system: System<V, C>,
    state: SystemState<V>,
    assumption: bool,
    r: Map<(Seq<char>, Seq<char>), V>,
    eq: E,
    as_vec: A,
    make_vec: M,
    arith: O,
    to_entity_id: T,
    to_number: N,
    id_of: I,
) -> bool {
    exists|per: Seq<Seq<BoundModel<V, C>>>|
        #[trigger] state_values_with(
            system,
            state,
            assumption,
            r,
            per,
            eq,
            as_vec,
            make_vec,
            arith,
            to_entity_id,
            to_number,
            id_of,
        )
}

/// Every model of the kind in the system gives values from every matching
/// instance (see `instances_give_values`).
pub open spec fn all_give_values<
    V: Clone,
    C: Clone,
    E: Fn(&V, &V) -> bool,
    A: Fn(&V) -> Option<Vec<V>>,
    M: Fn(Vec<V>) -> V,
    O: Fn(ArithOp, V, V) -> Option<V>,
    T: Fn(V) -> Option<V>,
    N: Fn(V) -> Option<V>,
>(
    system: System<V, C>,
    state: SystemState<V>,
    assumption: bool,
    eq: E,
    as_vec: A,
    make_vec: M,
    arith: O,
    to_entity_id: T,
    to_number: N,
) -> bool {
    forall|k: Seq<char>|
        #[trigger] system.models@.contains_key(k) && predicts_from_state(system.models@[k], assumption)
            ==> instances_give_values(
            system.models@[k],
            state.instansiated_csts@,
            eq,
            as_vec,
            make_vec,
            arith,
            to_entity_id,
            to_number,
        )
}

/// The values that the system's models of the kind give from the
/// instances of their states (see `state_values`).
fn state_values_of<
    V: Clone,
    C: Clone,
    E: Fn(&V, &V) -> bool,
    A: Fn(&V) -> Option<Vec<V>>,
    M: Fn(Vec<V>) -> V,
    O: Fn(ArithOp, V, V) -> Option<V>,
    T: Fn(V) -> Option<V>,
    N: Fn(V) -> Option<V>,
    I: Fn(&V) -> String,
>(
    system: &System<V, C>,
    state: &SystemState<V>,
    assumption: bool,
    eq: &E,
    as_vec: &A,
    make_vec: &M,
    arith: &O,
    to_entity_id: &T,
    to_number: &N,
    id_of: &I,
) -> (r: KeyMap<(String, String), V>)
    requires
        value_ops_sound(*eq, *as_vec, *make_vec),
        arith_decides(*arith),
        conv_decides(*to_entity_id),
        conv_decides(*to_number),
        ids_decided(*id_of),
        all_give_values(*system, *state, assumption, *eq, *as_vec, *make_vec, *arith, *to_entity_id, *to_number),
    ensures
        state_values(
            *system,
            *state,
            assumption,
            r@,
            *eq,
            *as_vec,
            *make_vec,
            *arith,
            *to_entity_id,
            *to_number,
            *id_of,
        ),
{
    let ghost entries = system.models.entries_view();
    let ghost mut per: Seq<Seq<BoundModel<V, C>>> = Seq::empty();
    let mut out: KeyMap<(String, String), V> = KeyMap::new();
    let n = system.models.len();
    let mut i: usize = 0;
    while i < n
        invariant
            i <= n,
            n == entries.len(),
            entries == system.models.entries_view(),
            value_ops_sound(*eq, *as_vec, *make_vec),
            arith_decides(*arith),
            conv_decides(*to_entity_id),
            conv_decides(*to_number),
            ids_decided(*id_of),
            all_give_values(*system, *state, assumption, *eq, *as_vec, *make_vec, *arith, *to_entity_id, *to_number),
            per.len() == i,
            forall|t: int|
                0 <= t < i ==> if predicts_from_state(#[trigger] entries[t].1, assumption) {
                    exists|idx: Seq<int>|
                        bound_from_instances(
                            entries[t].1,
                            entries[t].1.left.pattern->ICst_0,
                            instances_of(
                                state.instansiated_csts@,
                                entries[t].1.left.pattern->ICst_0.cst_id@,
                            ),
                            per[t],
                            idx,
                            *eq,
                            *as_vec,
                            *make_vec,
                            *arith,
                            *to_entity_id,
                            *to_number,
                        )
                } else {
                    per[t].len() == 0
                },
            out@ == entries_map(
                Seq::new(
                    i as nat,
                    |t: int| instance_values(entries[t].1.right.pattern->MkVal_0, per[t], *id_of, *make_vec),
                ).flatten_alt(),
            ),
        decreases n - i,
    {
        let (key, m) = system.models.entry_at(i);
        let ghost prefix_seq = Seq::new(
            i as nat,
            |t: int| instance_values(entries[t].1.right.pattern->MkVal_0, per[t], *id_of, *make_vec),
        );
        let ghost prefix = prefix_seq.flatten_alt();
        let ghost old_per = per;
        let selected = match (&m.left.pattern, &m.right.pattern) {
            (MdlLeftValue::ICst(_), MdlRightValue::MkVal(mv)) => mv.assumption == assumption,
            _ => false,
        };
        let ghost mut bms_seq: Seq<BoundModel<V, C>> = Seq::empty();
        let ghost mut the_idx: Seq<int> = Seq::empty();
        if selected {
            let bms = m.try_instantiate_with_icst(state, eq, as_vec, make_vec, arith, to_entity_id, to_number);
            let mv = m.right.pattern.as_mk_val();
            let ghost icst = m.left.pattern->ICst_0;
            let ghost states = instances_of(state.instansiated_csts@, icst.cst_id@);
            let ghost idx = choose|idx: Seq<int>|
                bound_from_instances(*m, icst, states, bms@, idx, *eq, *as_vec, *make_vec, *arith, *to_entity_id, *to_number);
            proof {
                assert(system.models@.contains_key(key@));
                assert(instances_give_values(*m, state.instansiated_csts@, *eq, *as_vec, *make_vec, *arith, *to_entity_id, *to_number));
            }
            let mut j: usize = 0;
            while j < bms.len()
                invariant
                    j <= bms.len(),
                    ids_decided(*id_of),
                    value_ops_sound(*eq, *as_vec, *make_vec),
                    bound_from_instances(*m, icst, states, bms@, idx, *eq, *as_vec, *make_vec, *arith, *to_entity_id, *to_number),
                    instances_give_values(*m, state.instansiated_csts@, *eq, *as_vec, *make_vec, *arith, *to_entity_id, *to_number),
                    states == instances_of(state.instansiated_csts@, icst.cst_id@),
                    icst == m.left.pattern->ICst_0,
                    *mv == m.right.pattern->MkVal_0,
                    out@ == entries_map(prefix + instance_values(*mv, bms@.take(j as int), *id_of, *make_vec)),
                decreases bms.len() - j,
            {
                let b = &bms[j];
                proof {
                    assert(b == bms@[j as int]);
                    let t = idx[j as int];
                    assert(0 <= t < states.len());
                    assert(icst_instance_answer(states[t], icst, *eq, *as_vec, true));
                }
                let id = mv.entity_id.get_id_with_bindings(&b.bindings, id_of).unwrap();
                let v = mv.value.get_value_with_bindings(&b.bindings, make_vec).unwrap();
                proof {
                    if mv.entity_id is Binding {
                        let nm = mv.entity_id->Binding_0;
                        let c = choose|s: String| id_of.ensures((&b.bindings@[nm@],), s);
                        assert(id_of.ensures((&b.bindings@[nm@],), c));
                    }
                    let vals = instance_values(*mv, bms@.take(j + 1), *id_of, *make_vec);
                    assert(vals =~= instance_values(*mv, bms@.take(j as int), *id_of, *make_vec).push(
                        ((id@, mv.var_name@), v),
                    ));
                    assert((prefix + vals).drop_last() =~= prefix + instance_values(
                        *mv,
                        bms@.take(j as int),
                        *id_of,
                        *make_vec,
                    ));
                }
                out.insert((id, mv.var_name.clone()), v);
                j = j + 1;
            }
            assert(bms@.take(bms@.len() as int) =~= bms@);
            proof {
                bms_seq = bms@;
                the_idx = idx;
                assert(out@ == entries_map(prefix + instance_values(*mv, bms_seq, *id_of, *make_vec)));
                assert(bound_from_instances(
                    entries[i as int].1,
                    entries[i as int].1.left.pattern->ICst_0,
                    instances_of(
                        state.instansiated_csts@,
                        entries[i as int].1.left.pattern->ICst_0.cst_id@,
                    ),
                    bms_seq,
                    the_idx,
                    *eq,
                    *as_vec,
                    *make_vec,
                    *arith,
                    *to_entity_id,
                    *to_number,
                ));
            }
        } else {
            proof {
                assert(instance_values(entries[i as int].1.right.pattern->MkVal_0, bms_seq, *id_of, *make_vec) =~= Seq::empty());
                assert(prefix + Seq::<((Seq<char>, Seq<char>), V)>::empty() =~= prefix);
            }
        }
        proof {
            per = per.push(bms_seq);
            assert(selected == predicts_from_state(entries[i as int].1, assumption));
            let f = |t: int| instance_values(entries[t].1.right.pattern->MkVal_0, per[t], *id_of, *make_vec);
            let next = Seq::new((i + 1) as nat, f);
            assert(next.drop_last() =~= prefix_seq);
            assert(next.last() == instance_values(
                entries[i as int].1.right.pattern->MkVal_0,
                bms_seq,
                *id_of,
                *make_vec,
            ));
            assert(next.flatten_alt() == prefix + next.last());
            assert forall|t: int| 0 <= t < i + 1 implies (if predicts_from_state(
                #[trigger] entries[t].1,
                assumption,
            ) {
                exists|idx: Seq<int>|
                    bound_from_instances(
                        entries[t].1,
                        entries[t].1.left.pattern->ICst_0,
                        instances_of(
                            state.instansiated_csts@,
                            entries[t].1.left.pattern->ICst_0.cst_id@,
                        ),
                        per[t],
                        idx,
                        *eq,
                        *as_vec,
                        *make_vec,
                        *arith,
                        *to_entity_id,
                        *to_number,
                    )
            } else {
                per[t].len() == 0
            }) by {
                if t < i {
                    assert(per[t] == old_per[t]);
                } else {
                    assert(per[t] == bms_seq);
                }
            }
        }
        i = i + 1;
    }
    proof {
        assert(state_values_with(
            *system,
            *state,
            assumption,
            out@,
            per,
            *eq,
            *as_vec,
            *make_vec,
            *arith,
            *to_entity_id,
            *to_number,
            *id_of,
        ));
    }
    out
}

/// The instances of each composite state of the system in the state with
/// the given variables, by the state's id (see `state_instances`).
pub fn compute_instantiated_states<
    V: Clone,
    C,
    G: Fn(&String) -> V,
    F: Fn(&V) -> String,
    E: Fn(&V, &V) -> bool,
    A: Fn(&V) -> Option<Vec<V>>,
>(
    system: &System<V, C>,
    state: &SystemState<V>,
    entity_value: &G,
    id_of: &F,
    eq: &E,
    as_vec: &A,
) -> (r: StrMap<Vec<BoundCst<V>>>)
    requires
        entity_values_decided(*entity_value),
        ids_decided(*id_of),
        eq_answers(*eq),
        as_vec_reads(*as_vec),
        clones_equal::<V>(),
    ensures
        forall|k: Seq<char>| #[trigger] r@.contains_key(k) <==> system.csts@.contains_key(k),
        forall|k: Seq<char>|
            #[trigger] r@.contains_key(k) ==> state_instances(
                system.csts@[k],
                r@[k]@,
                state.variables@,
                system.entities_in_classes@,
                *entity_value,
                *id_of,
                *eq,
                *as_vec,
            ),
{
    let csts = &system.csts;
    let mut out: StrMap<Vec<BoundCst<V>>> = StrMap::new();
    let n = csts.len();
    let mut i: usize = 0;
    while i < n
        invariant
            i <= n,
            n == csts.entries_view().len(),
            entity_values_decided(*entity_value),
            ids_decided(*id_of),
            eq_answers(*eq),
            as_vec_reads(*as_vec),
            clones_equal::<V>(),
            forall|k: Seq<char>|
                #[trigger] out@.contains_key(k) <==> exists|j: int|
                    0 <= j < i && csts.entries_view()[j].0 == k,
            forall|k: Seq<char>|
                #[trigger] out@.contains_key(k) ==> csts@.contains_key(k) && state_instances(
                    csts@[k],
                    out@[k]@,
                    state.variables@,
                    system.entities_in_classes@,
                    *entity_value,
                    *id_of,
                    *eq,
                    *as_vec,
                ),
        decreases n - i,
    {
        let (id, cst) = csts.entry_at(i);
        let instances = BoundCst::try_instantiate_from_state(
            cst,
            state,
            system,
            entity_value,
            id_of,
            eq,
            as_vec,
        );
        let ghost before = out@;
        out.insert(id.clone(), instances);
        assert forall|k: Seq<char>| #[trigger] out@.contains_key(k) <==> exists|j: int|
            0 <= j < i + 1 && csts.entries_view()[j].0 == k by {
            if k == id@ {
                assert(csts.entries_view()[i as int].0 == k);
            } else if before.contains_key(k) {
                let j = choose|j: int| 0 <= j < i && csts.entries_view()[j].0 == k;
                assert(0 <= j < i + 1 && csts.entries_view()[j].0 == k);
            }
        }
        i = i + 1;
    }
    proof {
        assert forall|k: Seq<char>| #[trigger] out@.contains_key(k) <==> csts@.contains_key(k) by {
            lemma_entries_map_contains(csts.entries_view(), k);
        }
    }
    out
}

/// The values that the system's assumption models give, by entity and
/// variable, from the instances of their states (see `state_values`).
pub fn compute_assumptions<
    V: Clone,
    C: Clone,
    E: Fn(&V, &V) -> bool,
    A: Fn(&V) -> Option<Vec<V>>,
    M: Fn(Vec<V>) -> V,
    O: Fn(ArithOp, V, V) -> Option<V>,
    T: Fn(V) -> Option<V>,
    N: Fn(V) -> Option<V>,
    I: Fn(&V) -> String,
>(
    system: &System<V, C>,
    state: &SystemState<V>,
    eq: &E,
    as_vec: &A,
    make_vec: &M,
    arith: &O,
    to_entity_id: &T,
    to_number: &N,
    id_of: &I,
) -> (r: KeyMap<(String, String), V>)
    requires
        value_ops_sound(*eq, *as_vec, *make_vec),
        arith_decides(*arith),
        conv_decides(*to_entity_id),
        conv_decides(*to_number),
        ids_decided(*id_of),
        all_give_values(*system, *state, true, *eq, *as_vec, *make_vec, *arith, *to_entity_id, *to_number),
    ensures
        state_values(*system, *state, true, r@, *eq, *as_vec, *make_vec, *arith, *to_entity_id, *to_number, *id_of),
{
    state_values_of(system, state, true, eq, as_vec, make_vec, arith, to_entity_id, to_number, id_of)
}

/// The values that the system's state prediction models give, by entity
/// and variable, from the instances of their states (see `state_values`).
pub fn compute_state_predictions<
    V: Clone,
    C: Clone,
    E: Fn(&V, &V) -> bool,
    A: Fn(&V) -> Option<Vec<V>>,
    M: Fn(Vec<V>) -> V,
    O: Fn(ArithOp, V, V) -> Option<V>,
    T: Fn(V) -> Option<V>,
    N: Fn(V) -> Option<V>,
    I: Fn(&V) -> String,
>(
    system: &System<V, C>,
    state: &SystemState<V>,
    eq: &E,
    as_vec: &A,
    make_vec: &M,
    arith: &O,
    to_entity_id: &T,
    to_number: &N,
    id_of: &I,
) -> (r: KeyMap<(String, String), V>)
    requires
        value_ops_sound(*eq, *as_vec, *make_vec),
        arith_decides(*arith),
        conv_decides(*to_entity_id),
        conv_decides(*to_number),
        ids_decided(*id_of),
        all_give_values(*system, *state, false, *eq, *as_vec, *make_vec, *arith, *to_entity_id, *to_number),
    ensures
        state_values(*system, *state, false, r@, *eq, *as_vec, *make_vec, *arith, *to_entity_id, *to_number, *id_of),
{
    state_values_of(system, state, false, eq, as_vec, make_vec, arith, to_entity_id, to_number, id_of)
}

} // verus!
