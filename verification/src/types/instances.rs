//! Bound models: a model together with values for its bindings, made from
//! an instantiation of it, from the composite states that hold, or from the
//! instantiation it is to bring about.

use vstd::prelude::*;
use crate::runtime::pattern_matching::{
    as_vec_reads, bound_icst_params, clones_equal, extract_bindings_from_patterns, extracted_map,
    compare_imdls, make_vec_decides, mk_val_match_outcome, named_match_outcome, items_combined,
    patterns_compare_answer, shorter, value_ops_sound, value_with_bindings, PatternMatchResult,
};
use crate::str_map::StrMap;
use crate::types::cst::{
    bound_count, cst_binding_params, cst_cloned, declared_bindings, fact_expanded, is_bound_name,
    params_bound, BoundCst, Cst, ICst,
};
use crate::types::functions::{arith_decides, conv_decides, ArithOp};
use crate::types::models::{
    compute_bindings, computed_after, copy_bindings, filled_mk_val, imdl_bound, imdl_filled, imdl_for,
    imdl_cloned, left_filled, mdl_cloned, mk_val_filled, model_params, BoundModel, IMdl, Mdl, MdlLeftValue,
    MdlRightValue, anti_answer, deduced,
};
use crate::types::pattern::{
    filled_copy_items, items_filled_copy, lemma_filled_copy_any, strings_view, PatternItem,
};
use crate::types::runtime::{System, SystemState};
use crate::runtime::utils::compute_instantiated_states;
use crate::str_map::{entries_map, KeyMap};
use crate::types::state_instances::{entity_values_decided, ids_decided, state_instances};
use crate::types::{Command, EntityPatternValue, Fact, MkVal, TimePatternRange, TimePatternValue};

verus! {

/// The bindings that the first `n` parameters of an instantiation give the
/// model's parameters `names`, in order: each parameter that has a value
/// under `m` binds the name in its place, a later one overriding an earlier.
pub open spec fn mapped_to_model<V, M: Fn(Vec<V>) -> V>(
    names: Seq<Seq<char>>,
    params: Seq<PatternItem<V>>,
    m: Map<Seq<char>, V>,
    make_vec: M,
    n: int,
) -> Map<Seq<char>, V>
    decreases n,
{
    if n <= 0 {
        Map::empty()
    } else {
        let prev = mapped_to_model(names, params, m, make_vec, n - 1);
        match value_with_bindings(params[n - 1], m, make_vec) {
            Some(v) => prev.insert(names[n - 1], v),
            None => prev,
        }
    }
}

/// The bindings an instantiation gives the model it instantiates, under `m`.
pub open spec fn imdl_model_bindings<V: Clone, C, M: Fn(Vec<V>) -> V>(
    imdl: IMdl<V>,
    model: Mdl<V, C>,
    m: Map<Seq<char>, V>,
    make_vec: M,
) -> Map<Seq<char>, V> {
    mapped_to_model(
        model_params(model),
        imdl.params@,
        m,
        make_vec,
        shorter(model_params(model).len(), imdl.params@.len()),
    )
}

/// Whether the instantiation `icst` matches the composite state instance
/// `bc` (`b`), unbound items allowed and lengths free: the same state, and
/// parameters that compare with those the instance gives.
pub open spec fn icst_instance_answer<
    V: Clone,
    E: Fn(&V, &V) -> bool,
    A: Fn(&V) -> Option<Vec<V>>,
>(bc: BoundCst<V>, icst: ICst<V>, eq: E, as_vec: A, b: bool) -> bool {
    if icst.cst_id@ == bc.cst.cst_id@ {
        patterns_compare_answer(
            bound_icst_params(cst_binding_params(bc.cst), bc.bindings@),
            icst.params@,
            true,
            true,
            eq,
            as_vec,
            b,
        )
    } else {
        !b
    }
}

/// The bindings that `icst`'s parameters take from the instance `bc`.
pub open spec fn icst_instance_bindings<
    V: Clone,
    A: Fn(&V) -> Option<Vec<V>>,
    M: Fn(Vec<V>) -> V,
>(bc: BoundCst<V>, icst: ICst<V>, as_vec: A, make_vec: M) -> Map<Seq<char>, V> {
    extracted_map(
        icst.params@,
        bound_icst_params(cst_binding_params(bc.cst), bc.bindings@),
        as_vec,
        make_vec,
    )
}

/// `r` holds, in order, one bound model for each of the instances
/// `states[idx[j]]` that `icst` matches, and `idx` lists every instance it
/// matches: the model bound with the bindings the match gives, then its
/// forward functions computed.
pub open spec fn bound_from_instances<
    V: Clone,
    C: Clone,
    E: Fn(&V, &V) -> bool,
    A: Fn(&V) -> Option<Vec<V>>,
    M: Fn(Vec<V>) -> V,
    O: Fn(ArithOp, V, V) -> Option<V>,
    T: Fn(V) -> Option<V>,
    N: Fn(V) -> Option<V>,
>(
    model: Mdl<V, C>,
    icst: ICst<V>,
    states: Seq<BoundCst<V>>,
    r: Seq<BoundModel<V, C>>,
    idx: Seq<int>,
    eq: E,
    as_vec: A,
    make_vec: M,
    arith: O,
    to_entity_id: T,
    to_number: N,
) -> bool {
    &&& idx.len() == r.len()
    &&& forall|j: int| 0 <= j < idx.len() ==> 0 <= #[trigger] idx[j] < states.len()
    &&& forall|j: int, k: int| 0 <= j < k < idx.len() ==> idx[j] < idx[k]
    &&& forall|j: int|
        #![trigger r[j]]
        0 <= j < idx.len() ==> {
            &&& icst_instance_answer(states[idx[j]], icst, eq, as_vec, true)
            &&& r[j].bindings@ == computed_after(
                icst_instance_bindings(states[idx[j]], icst, as_vec, make_vec),
                model.forward_computed@,
                make_vec,
                arith,
                to_entity_id,
                to_number,
            )
            &&& mdl_cloned(model, r[j].model)
        }
    &&& forall|i: int|
        0 <= i < states.len() && !idx.contains(i) ==> icst_instance_answer(
            #[trigger] states[i],
            icst,
            eq,
            as_vec,
            false,
        )
}

/// The instances of the composite state with id `cst_id` among
/// `instantiated`: none where it has no entry.
pub open spec fn instances_of<V: Clone>(
    instantiated: Map<Seq<char>, Vec<BoundCst<V>>>,
    cst_id: Seq<char>,
) -> Seq<BoundCst<V>> {
    if instantiated.contains_key(cst_id) {
        instantiated[cst_id]@
    } else {
        Seq::empty()
    }
}

/// What abduction yields: the facts to bring about, with the id of the
/// composite state they come from, the instantiation of the model that
/// would then hold and the instantiation of the state; or only the
/// instantiation of the model.
pub enum AbductionResult<V: Clone> {
    SubGoal(Vec<Fact<MkVal<V>>>, Option<String>, IMdl<V>, Option<ICst<V>>),
    IMdl(IMdl<V>),
}

/// `r` is the outcome of matching right-hand side `a`, with the bindings
/// `m` filled in, against `b`: instantiations of the same model, or
/// variable patterns, that match give the bindings found; sides of
/// different kinds do not match.
pub open spec fn right_match_outcome<
    V: Clone,
    E: Fn(&V, &V) -> bool,
    A: Fn(&V) -> Option<Vec<V>>,
    M: Fn(Vec<V>) -> V,
>(
    a: MdlRightValue<V>,
    m: Map<Seq<char>, V>,
    b: MdlRightValue<V>,
    eq: E,
    as_vec: A,
    make_vec: M,
    r: PatternMatchResult<V>,
) -> bool {
    match (a, b) {
        (MdlRightValue::IMdl(x), MdlRightValue::IMdl(y)) => named_match_outcome(
            x.model_id@ == y.model_id@,
            x.params@,
            m,
            y.params@,
            true,
            false,
            eq,
            as_vec,
            make_vec,
            r,
        ),
        (MdlRightValue::MkVal(x), MdlRightValue::MkVal(y)) => mk_val_match_outcome(
            x,
            m,
            y,
            true,
            eq,
            as_vec,
            make_vec,
            r,
        ),
        _ => r is False,
    }
}

/// The composite state can be expanded with `params`: every entity of its
/// facts that is a binding, and every declared entity, is among the
/// parameters given, and no declared entity is given a wildcard.
pub open spec fn expandable<V: Clone>(cst: Cst<V>, params: Seq<PatternItem<V>>) -> bool {
    &&& forall|i: int|
        0 <= i < cst.facts@.len() && (#[trigger] cst.facts@[i]).pattern.entity_id is Binding
            ==> is_bound_name(
            cst.facts@[i].pattern.entity_id->Binding_0@,
            cst_binding_params(cst),
            params.len(),
        )
    &&& forall|i: int|
        0 <= i < cst.entities@.len() ==> is_bound_name(
            (#[trigger] cst.entities@[i]).binding@,
            cst_binding_params(cst),
            params.len(),
        )
    &&& forall|i: int|
        0 <= i < bound_count(cst_binding_params(cst).len(), params.len())
            && declared_bindings(cst.entities@).contains(cst_binding_params(cst)[i]) ==> !(
        #[trigger] params[i] is Any)
}

/// `facts` are the facts of a copy of `cst` expanded with `params`: each
/// parameter of the state bound to the parameter in its place.
pub open spec fn cst_expanded<V: Clone, F: Fn(&V) -> Option<String>>(
    cst: Cst<V>,
    params: Seq<PatternItem<V>>,
    facts: Seq<Fact<MkVal<V>>>,
    entity_id_of: F,
) -> bool {
    exists|c: Cst<V>, pm: Map<Seq<char>, PatternItem<V>>|
        {
            &&& #[trigger] cst_cloned(cst, c)
            &&& #[trigger] params_bound(pm, cst_binding_params(cst), params)
            &&& facts.len() == c.facts@.len()
            &&& forall|i: int|
                0 <= i < facts.len() ==> fact_expanded(#[trigger] c.facts@[i], facts[i], pm, entity_id_of)
        }
}

/// `r` is what abduction yields for `model` under the bindings `m`: for a
/// left-hand composite state, the facts of the state expanded with the
/// state's instantiation filled in; for a left-hand variable, that
/// variable filled in; for anything else, the instantiation of the model
/// alone. The instantiation of the model is bound by `m` in each case.
pub open spec fn abduced<V: Clone, C, F: Fn(&V) -> Option<String>>(
    model: Mdl<V, C>,
    m: Map<Seq<char>, V>,
    csts: Map<Seq<char>, Cst<V>>,
    r: AbductionResult<V>,
    entity_id_of: F,
) -> bool {
    match model.left.pattern {
        MdlLeftValue::ICst(icst) => match r {
            AbductionResult::SubGoal(facts, Some(id), imdl, Some(filled)) => {
                &&& id@ == icst.cst_id@
                &&& filled.cst_id == icst.cst_id
                &&& items_filled_copy(icst.params@, filled.params@, m)
                &&& imdl_bound(model, m, imdl)
                &&& cst_expanded(csts[icst.cst_id@], filled.params@, facts@, entity_id_of)
            },
            _ => false,
        },
        MdlLeftValue::MkVal(mv) => match r {
            AbductionResult::SubGoal(facts, None, imdl, None) => {
                &&& facts@.len() == 1
                &&& facts@[0].time_range == model.left.time_range
                &&& mk_val_filled(mv, facts@[0].pattern, m, entity_id_of)
                &&& imdl_bound(model, m, imdl)
            },
            _ => false,
        },
        _ => match r {
            AbductionResult::IMdl(imdl) => imdl_bound(model, m, imdl),
            _ => false,
        },
    }
}

/// `r` is the model that `imdl` instantiates among `models`, bound by it
/// under `m`: the bindings it gives the model's parameters, overridden by
/// its guard values, then the model's forward functions computed.
pub open spec fn instantiated_as<
    V: Clone,
    C: Clone,
    M: Fn(Vec<V>) -> V,
    O: Fn(ArithOp, V, V) -> Option<V>,
    T: Fn(V) -> Option<V>,
    N: Fn(V) -> Option<V>,
>(
    imdl: IMdl<V>,
    m: Map<Seq<char>, V>,
    models: Map<Seq<char>, Mdl<V, C>>,
    r: BoundModel<V, C>,
    make_vec: M,
    arith: O,
    to_entity_id: T,
    to_number: N,
) -> bool {
    &&& mdl_cloned(models[imdl.model_id@], r.model)
    &&& r.bindings@ == computed_after(
        imdl_model_bindings(imdl, models[imdl.model_id@], m, make_vec).union_prefer_right(
            imdl.fwd_guard_bindings@,
        ),
        models[imdl.model_id@].forward_computed@,
        make_vec,
        arith,
        to_entity_id,
        to_number,
    )
}

/// Computing functions leaves a name that none of them computes as it was.
proof fn lemma_computed_keeps<
    V,
    M: Fn(Vec<V>) -> V,
    O: Fn(ArithOp, V, V) -> Option<V>,
    T: Fn(V) -> Option<V>,
    N: Fn(V) -> Option<V>,
>(
    m: Map<Seq<char>, V>,
    s: Seq<(String, crate::types::functions::Function<V>)>,
    make_vec: M,
    arith: O,
    to_entity_id: T,
    to_number: N,
    b: Seq<char>,
)
    requires
        forall|j: int| 0 <= j < s.len() ==> (#[trigger] s[j]).0@ != b,
    ensures
        computed_after(m, s, make_vec, arith, to_entity_id, to_number).contains_key(b) == m.contains_key(b),
        m.contains_key(b) ==> computed_after(m, s, make_vec, arith, to_entity_id, to_number)[b] == m[b],
    decreases s.len(),
{
    if s.len() > 0 {
        assert forall|j: int| 0 <= j < s.drop_last().len() implies (#[trigger] s.drop_last()[j]).0@ != b by {
            assert(s.drop_last()[j] == s[j]);
        }
        lemma_computed_keeps(m, s.drop_last(), make_vec, arith, to_entity_id, to_number, b);
        assert(s.last().0@ != b);
    }
}

/// Mapping parameters that hold the value `v` wherever the name `b` stands
/// binds `b` to `v`, where `b` stands among the first `n` names.
proof fn lemma_mapped_value<V, M: Fn(Vec<V>) -> V>(
    names: Seq<Seq<char>>,
    params: Seq<PatternItem<V>>,
    make_vec: M,
    n: int,
    b: Seq<char>,
    v: V,
)
    requires
        0 <= n <= names.len(),
        n <= params.len(),
        forall|i: int| 0 <= i < n && names[i] == b ==> #[trigger] params[i] == PatternItem::Value(v),
    ensures
        mapped_to_model(names, params, Map::empty(), make_vec, n).contains_key(b) <==> exists|i: int|
            0 <= i < n && names[i] == b,
        (exists|i: int| 0 <= i < n && names[i] == b) ==> mapped_to_model(names, params, Map::empty(), make_vec, n)[b]
            == v,
    decreases n,
{
    if n > 0 {
        lemma_mapped_value(names, params, make_vec, n - 1, b, v);
        if names[n - 1] == b {
            assert(params[n - 1] == PatternItem::Value(v));
        }
    }
}

/// An instantiation made from a bound model instantiates the model again
/// with the values it was bound to: each parameter of the model that the
/// bindings hold keeps its value. `imdl` is what `imdl_for_model` promises
/// and `r` what `instantiate` promises, with no further bindings, where the
/// system holds the model under its id.
pub proof fn lemma_imdl_for_model_round_trip<
    V: Clone,
    C: Clone,
    M: Fn(Vec<V>) -> V,
    O: Fn(ArithOp, V, V) -> Option<V>,
    T: Fn(V) -> Option<V>,
    N: Fn(V) -> Option<V>,
>(
    bm: BoundModel<V, C>,
    imdl: IMdl<V>,
    models: Map<Seq<char>, Mdl<V, C>>,
    r: BoundModel<V, C>,
    make_vec: M,
    arith: O,
    to_entity_id: T,
    to_number: N,
    b: Seq<char>,
)
    requires
        clones_equal::<V>(),
        imdl_bound(bm.model, bm.bindings@, imdl),
        models.contains_key(imdl.model_id@),
        models[imdl.model_id@] == bm.model,
        instantiated_as(imdl, Map::empty(), models, r, make_vec, arith, to_entity_id, to_number),
        model_params(bm.model).contains(b),
        bm.bindings@.contains_key(b),
    ensures
        r.bindings@.contains_key(b),
        r.bindings@[b] == bm.bindings@[b],
{
    let model = bm.model;
    let fc = model.forward_computed@;
    let names = model_params(model);
    let all = crate::types::models::left_bindings(model.left.pattern) + crate::types::models::computed_bindings(fc)
        + crate::types::models::right_bindings(model.right.pattern);
    let cn = crate::types::models::computed_names(fc);
    crate::strings::lemma_unique_seq(crate::types::models::without(all, cn));
    crate::types::models::lemma_without(all, cn);
    assert(!cn.contains(b));
    assert forall|j: int| 0 <= j < fc.len() implies (#[trigger] fc[j]).0@ != b by {
        assert(cn[j] == fc[j].0@);
    }
    assert(!imdl.fwd_guard_bindings@.contains_key(b));
    let v = bm.bindings@[b];
    assert forall|i: int| 0 <= i < names.len() && names[i] == b implies #[trigger] imdl.params@[i]
        == PatternItem::Value(v) by {
        assert(cloned(v, imdl.params@[i]->Value_0));
    }
    let i0 = choose|i: int| 0 <= i < names.len() && names[i] == b;
    lemma_mapped_value(names, imdl.params@, make_vec, names.len() as int, b, v);
    assert(shorter(names.len(), imdl.params@.len()) == names.len());
    let m0 = imdl_model_bindings(imdl, model, Map::empty(), make_vec).union_prefer_right(imdl.fwd_guard_bindings@);
    assert(m0.contains_key(b) && m0[b] == v);
    lemma_computed_keeps(m0, fc, make_vec, arith, to_entity_id, to_number, b);
}

/// Whether instantiation `a` matches `b` (`res`), unbound items allowed
/// and lengths equal: the same model and parameters that compare.
pub open spec fn imdl_compare_answer<V, E: Fn(&V, &V) -> bool, A: Fn(&V) -> Option<Vec<V>>>(
    a: IMdl<V>,
    b: IMdl<V>,
    eq: E,
    as_vec: A,
    res: bool,
) -> bool where V: Clone {
    if a.model_id@ == b.model_id@ {
        patterns_compare_answer(a.params@, b.params@, true, false, eq, as_vec, res)
    } else {
        !res
    }
}

/// The instantiation of the bound model `bm` does not match `filled`.
pub open spec fn instance_missed<V: Clone, C, E: Fn(&V, &V) -> bool, A: Fn(&V) -> Option<Vec<V>>>(
    filled: IMdl<V>,
    bm: BoundModel<V, C>,
    eq: E,
    as_vec: A,
) -> bool {
    exists|inst: IMdl<V>|
        #[trigger] imdl_bound(bm.model, bm.bindings@, inst) && imdl_compare_answer(
            filled,
            inst,
            eq,
            as_vec,
            false,
        )
}

/// `r` is what reusing one of the bound models `list` gives, for the
/// filled-in left-hand instantiation `filled`: the merge of `filled` with
/// the instantiation of the first of `list` that it matches, instantiated
/// among `models`; none where nothing matches.
pub open spec fn reused_from<
    V: Clone,
    C: Clone,
    E: Fn(&V, &V) -> bool,
    A: Fn(&V) -> Option<Vec<V>>,
    M: Fn(Vec<V>) -> V,
    O: Fn(ArithOp, V, V) -> Option<V>,
    T: Fn(V) -> Option<V>,
    N: Fn(V) -> Option<V>,
>(
    filled: IMdl<V>,
    list: Seq<BoundModel<V, C>>,
    models: Map<Seq<char>, Mdl<V, C>>,
    r: Option<BoundModel<V, C>>,
    eq: E,
    as_vec: A,
    make_vec: M,
    arith: O,
    to_entity_id: T,
    to_number: N,
) -> bool {
    match r {
        None => forall|j: int|
            0 <= j < list.len() ==> instance_missed(filled, #[trigger] list[j], eq, as_vec),
        Some(b) => exists|j: int, inst: IMdl<V>, merged: IMdl<V>|
            {
                &&& 0 <= j < list.len()
                &&& forall|k: int|
                    0 <= k < j ==> instance_missed(filled, #[trigger] list[k], eq, as_vec)
                &&& #[trigger] imdl_bound(list[j].model, list[j].bindings@, inst)
                &&& imdl_compare_answer(filled, inst, eq, as_vec, true)
                &&& merged.model_id == filled.model_id
                &&& #[trigger] items_combined(filled.params@, inst.params@, merged.params@, as_vec)
                &&& merged.fwd_guard_bindings@ == filled.fwd_guard_bindings@.union_prefer_right(
                    inst.fwd_guard_bindings@,
                )
                &&& instantiated_as(
                    merged,
                    Map::empty(),
                    models,
                    b,
                    make_vec,
                    arith,
                    to_entity_id,
                    to_number,
                )
            },
    }
}

/// The first bound model whose instantiation `filled` matches gives the
/// reused model.
proof fn lemma_reused_from_found<
    V: Clone,
    C: Clone,
    E: Fn(&V, &V) -> bool,
    A: Fn(&V) -> Option<Vec<V>>,
    M: Fn(Vec<V>) -> V,
    O: Fn(ArithOp, V, V) -> Option<V>,
    T: Fn(V) -> Option<V>,
    N: Fn(V) -> Option<V>,
>(
    filled: IMdl<V>,
    list: Seq<BoundModel<V, C>>,
    models: Map<Seq<char>, Mdl<V, C>>,
    b: BoundModel<V, C>,
    j: int,
    inst: IMdl<V>,
    merged: IMdl<V>,
    eq: E,
    as_vec: A,
    make_vec: M,
    arith: O,
    to_entity_id: T,
    to_number: N,
)
    requires
        0 <= j < list.len(),
        forall|k: int| 0 <= k < j ==> instance_missed(filled, #[trigger] list[k], eq, as_vec),
        imdl_bound(list[j].model, list[j].bindings@, inst),
        imdl_compare_answer(filled, inst, eq, as_vec, true),
        merged.model_id == filled.model_id,
        items_combined(filled.params@, inst.params@, merged.params@, as_vec),
        merged.fwd_guard_bindings@ == filled.fwd_guard_bindings@.union_prefer_right(
            inst.fwd_guard_bindings@,
        ),
        instantiated_as(merged, Map::empty(), models, b, make_vec, arith, to_entity_id, to_number),
    ensures
        reused_from(
            filled,
            list,
            models,
            Some(b),
            eq,
            as_vec,
            make_vec,
            arith,
            to_entity_id,
            to_number,
        ),
{
}

/// `r` is the model that the bound model `bm` reuses, among the bound
/// models `list`: its left-hand instantiation, with its bindings filled
/// in, reuses one of them (see `reused_from`); none where the left-hand
/// side is no instantiation.
pub open spec fn reused_model<
    V: Clone,
    C: Clone,
    E: Fn(&V, &V) -> bool,
    A: Fn(&V) -> Option<Vec<V>>,
    M: Fn(Vec<V>) -> V,
    O: Fn(ArithOp, V, V) -> Option<V>,
    T: Fn(V) -> Option<V>,
    N: Fn(V) -> Option<V>,
>(
    bm: BoundModel<V, C>,
    list: Seq<BoundModel<V, C>>,
    models: Map<Seq<char>, Mdl<V, C>>,
    r: Option<BoundModel<V, C>>,
    eq: E,
    as_vec: A,
    make_vec: M,
    arith: O,
    to_entity_id: T,
    to_number: N,
) -> bool {
    match bm.model.left.pattern {
        MdlLeftValue::IMdl(imdl) => exists|filled: IMdl<V>|
            #[trigger] imdl_filled(imdl, filled, bm.bindings@) && reused_from(
                filled,
                list,
                models,
                r,
                eq,
                as_vec,
                make_vec,
                arith,
                to_entity_id,
                to_number,
            ),
        _ => r is None,
    }
}

/// A filled-in left-hand instantiation that reuses a model gives the
/// reused model.
proof fn lemma_reused_model_of<
    V: Clone,
    C: Clone,
    E: Fn(&V, &V) -> bool,
    A: Fn(&V) -> Option<Vec<V>>,
    M: Fn(Vec<V>) -> V,
    O: Fn(ArithOp, V, V) -> Option<V>,
    T: Fn(V) -> Option<V>,
    N: Fn(V) -> Option<V>,
>(
    bm: BoundModel<V, C>,
    filled: IMdl<V>,
    list: Seq<BoundModel<V, C>>,
    models: Map<Seq<char>, Mdl<V, C>>,
    r: Option<BoundModel<V, C>>,
    eq: E,
    as_vec: A,
    make_vec: M,
    arith: O,
    to_entity_id: T,
    to_number: N,
)
    requires
        bm.model.left.pattern is IMdl,
        imdl_filled(bm.model.left.pattern->IMdl_0, filled, bm.bindings@),
        reused_from(filled, list, models, r, eq, as_vec, make_vec, arith, to_entity_id, to_number),
    ensures
        reused_model(bm, list, models, r, eq, as_vec, make_vec, arith, to_entity_id, to_number),
{
}

/// `rank` orders the models by reuse: a model whose left-hand side is an
/// instantiation reuses a model of the system that ranks lower.
pub open spec fn reuse_ranked<V: Clone, C>(
    models: Map<Seq<char>, Mdl<V, C>>,
    rank: spec_fn(Seq<char>) -> nat,
) -> bool {
    forall|k: Seq<char>|
        #[trigger] models.contains_key(k) && models[k].left.pattern is IMdl ==> {
            let j = models[k].left.pattern->IMdl_0.model_id@;
            models.contains_key(j) && rank(j) < rank(k)
        }
}

/// No chain of reuse among the models goes round in a circle.
pub open spec fn reuse_acyclic<V: Clone, C>(models: Map<Seq<char>, Mdl<V, C>>) -> bool {
    exists|rank: spec_fn(Seq<char>) -> nat| reuse_ranked(models, rank)
}

/// How many models a left-hand side reaches through reuse, at most.
pub open spec fn reuse_depth<V: Clone, C>(
    models: Map<Seq<char>, Mdl<V, C>>,
    left: MdlLeftValue<V>,
) -> nat {
    match left {
        MdlLeftValue::IMdl(i) => {
            let rank = choose|rank: spec_fn(Seq<char>) -> nat| reuse_ranked(models, rank);
            rank(i.model_id@) + 1
        },
        _ => 0,
    }
}

/// `r` is the command that the causal model `model`, bound by `m`, would
/// execute: its own left-hand command with the bindings filled in; for a
/// reuse model, the command of the model reused (see `command_from`); none
/// for other models, or where `depth` reuses do not reach a command.
pub open spec fn casual_command<
    V: Clone,
    C: Clone,
    E: Fn(&V, &V) -> bool,
    A: Fn(&V) -> Option<Vec<V>>,
    M: Fn(Vec<V>) -> V,
    O: Fn(ArithOp, V, V) -> Option<V>,
    T: Fn(V) -> Option<V>,
    N: Fn(V) -> Option<V>,
    F: Fn(&V) -> Option<String>,
>(
    model: Mdl<V, C>,
    m: Map<Seq<char>, V>,
    list: Seq<BoundModel<V, C>>,
    models: Map<Seq<char>, Mdl<V, C>>,
    r: Option<Command<V>>,
    eq: E,
    as_vec: A,
    make_vec: M,
    arith: O,
    to_entity_id: T,
    to_number: N,
    entity_id_of: F,
    depth: nat,
) -> bool
    decreases depth, 0int, 0int, 0int,
{
    match model.left.pattern {
        MdlLeftValue::Command(_) => match r {
            Some(c) => left_filled(model.left.pattern, MdlLeftValue::Command(c), m, entity_id_of),
            None => false,
        },
        MdlLeftValue::IMdl(imdl) => depth > 0 && exists|filled: IMdl<V>|
            #[trigger] imdl_filled(imdl, filled, m) && command_from(
                filled,
                list,
                0,
                models,
                r,
                eq,
                as_vec,
                make_vec,
                arith,
                to_entity_id,
                to_number,
                entity_id_of,
                (depth - 1) as nat,
            ),
        _ => r is None,
    }
}

/// `r` is the command that the filled-in instantiation `filled` leads to
/// among the bound models `list` from position `k` on: the first whose
/// instantiation it matches and whose model, merged with a copy of `filled`
/// and instantiated from `models`, gives a command (see `casual_command`).
pub open spec fn command_from<
    V: Clone,
    C: Clone,
    E: Fn(&V, &V) -> bool,
    A: Fn(&V) -> Option<Vec<V>>,
    M: Fn(Vec<V>) -> V,
    O: Fn(ArithOp, V, V) -> Option<V>,
    T: Fn(V) -> Option<V>,
    N: Fn(V) -> Option<V>,
    F: Fn(&V) -> Option<String>,
>(
    filled: IMdl<V>,
    list: Seq<BoundModel<V, C>>,
    k: int,
    models: Map<Seq<char>, Mdl<V, C>>,
    r: Option<Command<V>>,
    eq: E,
    as_vec: A,
    make_vec: M,
    arith: O,
    to_entity_id: T,
    to_number: N,
    entity_id_of: F,
    depth: nat,
) -> bool
    decreases depth, 1int, list.len() - k, 2int,
{
    if k < 0 || k >= list.len() {
        r is None
    } else {
        exists|inst: IMdl<V>|
            #[trigger] imdl_bound(list[k].model, list[k].bindings@, inst) && {
                ||| imdl_compare_answer(filled, inst, eq, as_vec, false) && command_from(
                    filled,
                    list,
                    k + 1,
                    models,
                    r,
                    eq,
                    as_vec,
                    make_vec,
                    arith,
                    to_entity_id,
                    to_number,
                    entity_id_of,
                    depth,
                )
                ||| imdl_compare_answer(filled, inst, eq, as_vec, true) && merged_command(
                    filled,
                    list,
                    k,
                    models,
                    r,
                    inst,
                    eq,
                    as_vec,
                    make_vec,
                    arith,
                    to_entity_id,
                    to_number,
                    entity_id_of,
                    depth,
                )
            }
    }
}

/// `r` is what the `k`-th bound model of `list`, whose instantiation
/// `inst` the filled-in instantiation `filled` matches, leads to: the
/// command of the model `b` that the merge of a copy of `filled` with
/// `inst` instantiates, or, where that gives none, what the rest of `list`
/// leads to.
pub open spec fn merged_command<
    V: Clone,
    C: Clone,
    E: Fn(&V, &V) -> bool,
    A: Fn(&V) -> Option<Vec<V>>,
    M: Fn(Vec<V>) -> V,
    O: Fn(ArithOp, V, V) -> Option<V>,
    T: Fn(V) -> Option<V>,
    N: Fn(V) -> Option<V>,
    F: Fn(&V) -> Option<String>,
>(
    filled: IMdl<V>,
    list: Seq<BoundModel<V, C>>,
    k: int,
    models: Map<Seq<char>, Mdl<V, C>>,
    r: Option<Command<V>>,
    inst: IMdl<V>,
    eq: E,
    as_vec: A,
    make_vec: M,
    arith: O,
    to_entity_id: T,
    to_number: N,
    entity_id_of: F,
    depth: nat,
) -> bool
    decreases depth, 1int, list.len() - k, 1int,
{
    0 <= k < list.len() && exists|copy: IMdl<V>, merged: IMdl<V>, b: BoundModel<V, C>|
        #[trigger] merge_step(
            filled,
            inst,
            copy,
            merged,
            b,
            models,
            as_vec,
            make_vec,
            arith,
            to_entity_id,
            to_number,
        ) && {
            ||| r is Some && casual_command(
                b.model,
                b.bindings@,
                list,
                models,
                r,
                eq,
                as_vec,
                make_vec,
                arith,
                to_entity_id,
                to_number,
                entity_id_of,
                depth,
            )
            ||| casual_command(
                b.model,
                b.bindings@,
                list,
                models,
                None,
                eq,
                as_vec,
                make_vec,
                arith,
                to_entity_id,
                to_number,
                entity_id_of,
                depth,
            ) && command_from(
                filled,
                list,
                k + 1,
                models,
                r,
                eq,
                as_vec,
                make_vec,
                arith,
                to_entity_id,
                to_number,
                entity_id_of,
                depth,
            )
        }
}

/// `copy` copies `filled`, `merged` merges it with `inst`, and `b` is the
/// model that `merged` instantiates among `models`.
pub open spec fn merge_step<
    V: Clone,
    C: Clone,
    A: Fn(&V) -> Option<Vec<V>>,
    M: Fn(Vec<V>) -> V,
    O: Fn(ArithOp, V, V) -> Option<V>,
    T: Fn(V) -> Option<V>,
    N: Fn(V) -> Option<V>,
>(
    filled: IMdl<V>,
    inst: IMdl<V>,
    copy: IMdl<V>,
    merged: IMdl<V>,
    b: BoundModel<V, C>,
    models: Map<Seq<char>, Mdl<V, C>>,
    as_vec: A,
    make_vec: M,
    arith: O,
    to_entity_id: T,
    to_number: N,
) -> bool {
    &&& imdl_cloned(filled, copy)
    &&& merged.model_id == filled.model_id
    &&& items_combined(copy.params@, inst.params@, merged.params@, as_vec)
    &&& merged.fwd_guard_bindings@ == copy.fwd_guard_bindings@.union_prefer_right(
        inst.fwd_guard_bindings@,
    )
    &&& instantiated_as(merged, Map::empty(), models, b, make_vec, arith, to_entity_id, to_number)
}

/// A bound model whose instantiation `filled` does not match passes the
/// search on.
proof fn lemma_command_from_skip<
    V: Clone,
    C: Clone,
    E: Fn(&V, &V) -> bool,
    A: Fn(&V) -> Option<Vec<V>>,
    M: Fn(Vec<V>) -> V,
    O: Fn(ArithOp, V, V) -> Option<V>,
    T: Fn(V) -> Option<V>,
    N: Fn(V) -> Option<V>,
    F: Fn(&V) -> Option<String>,
>(
    filled: IMdl<V>,
    list: Seq<BoundModel<V, C>>,
    k: int,
    models: Map<Seq<char>, Mdl<V, C>>,
    r: Option<Command<V>>,
    inst: IMdl<V>,
    eq: E,
    as_vec: A,
    make_vec: M,
    arith: O,
    to_entity_id: T,
    to_number: N,
    entity_id_of: F,
    depth: nat,
)
    requires
        0 <= k < list.len(),
        imdl_bound(list[k].model, list[k].bindings@, inst),
        imdl_compare_answer(filled, inst, eq, as_vec, false),
        command_from(filled, list, k + 1, models, r, eq, as_vec, make_vec, arith, to_entity_id, to_number, entity_id_of, depth),
    ensures
        command_from(filled, list, k, models, r, eq, as_vec, make_vec, arith, to_entity_id, to_number, entity_id_of, depth),
{
}

/// A bound model whose instantiation `filled` matches gives the command of
/// the model instantiated from the merge, or passes the search on where
/// that gives none.
proof fn lemma_command_from_merged<
    V: Clone,
    C: Clone,
    E: Fn(&V, &V) -> bool,
    A: Fn(&V) -> Option<Vec<V>>,
    M: Fn(Vec<V>) -> V,
    O: Fn(ArithOp, V, V) -> Option<V>,
    T: Fn(V) -> Option<V>,
    N: Fn(V) -> Option<V>,
    F: Fn(&V) -> Option<String>,
>(
    filled: IMdl<V>,
    list: Seq<BoundModel<V, C>>,
    k: int,
    models: Map<Seq<char>, Mdl<V, C>>,
    r: Option<Command<V>>,
    inst: IMdl<V>,
    copy: IMdl<V>,
    merged: IMdl<V>,
    b: BoundModel<V, C>,
    sub: Option<Command<V>>,
    eq: E,
    as_vec: A,
    make_vec: M,
    arith: O,
    to_entity_id: T,
    to_number: N,
    entity_id_of: F,
    depth: nat,
)
    requires
        0 <= k < list.len(),
        imdl_bound(list[k].model, list[k].bindings@, inst),
        imdl_compare_answer(filled, inst, eq, as_vec, true),
        imdl_cloned(filled, copy),
        merged.model_id == filled.model_id,
        items_combined(copy.params@, inst.params@, merged.params@, as_vec),
        merged.fwd_guard_bindings@ == copy.fwd_guard_bindings@.union_prefer_right(
            inst.fwd_guard_bindings@,
        ),
        instantiated_as(merged, Map::empty(), models, b, make_vec, arith, to_entity_id, to_number),
        casual_command(b.model, b.bindings@, list, models, sub, eq, as_vec, make_vec, arith, to_entity_id, to_number, entity_id_of, depth),
        sub is Some ==> r == sub,
        sub is None ==> command_from(filled, list, k + 1, models, r, eq, as_vec, make_vec, arith, to_entity_id, to_number, entity_id_of, depth),
    ensures
        command_from(filled, list, k, models, r, eq, as_vec, make_vec, arith, to_entity_id, to_number, entity_id_of, depth),
{
    assert(merge_step(
        filled,
        inst,
        copy,
        merged,
        b,
        models,
        as_vec,
        make_vec,
        arith,
        to_entity_id,
        to_number,
    ));
    assert(merged_command(
        filled,
        list,
        k,
        models,
        r,
        inst,
        eq,
        as_vec,
        make_vec,
        arith,
        to_entity_id,
        to_number,
        entity_id_of,
        depth,
    ));
}

/// A reuse model gives the command that its filled-in instantiation
/// leads to.
proof fn lemma_casual_command_reuse<
    V: Clone,
    C: Clone,
    E: Fn(&V, &V) -> bool,
    A: Fn(&V) -> Option<Vec<V>>,
    M: Fn(Vec<V>) -> V,
    O: Fn(ArithOp, V, V) -> Option<V>,
    T: Fn(V) -> Option<V>,
    N: Fn(V) -> Option<V>,
    F: Fn(&V) -> Option<String>,
>(
    model: Mdl<V, C>,
    m: Map<Seq<char>, V>,
    filled: IMdl<V>,
    list: Seq<BoundModel<V, C>>,
    models: Map<Seq<char>, Mdl<V, C>>,
    r: Option<Command<V>>,
    eq: E,
    as_vec: A,
    make_vec: M,
    arith: O,
    to_entity_id: T,
    to_number: N,
    entity_id_of: F,
    depth: nat,
)
    requires
        model.left.pattern is IMdl,
        depth > 0,
        imdl_filled(model.left.pattern->IMdl_0, filled, m),
        command_from(filled, list, 0, models, r, eq, as_vec, make_vec, arith, to_entity_id, to_number, entity_id_of, (depth - 1) as nat),
    ensures
        casual_command(model, m, list, models, r, eq, as_vec, make_vec, arith, to_entity_id, to_number, entity_id_of, depth),
{
}

/// The command that the bound model `bm` would execute, following at most
/// `depth` reuses (see `casual_command`).
fn casual_command_of<
    V: Clone,
    C: Clone,
    E: Fn(&V, &V) -> bool,
    A: Fn(&V) -> Option<Vec<V>>,
    M: Fn(Vec<V>) -> V,
    O: Fn(ArithOp, V, V) -> Option<V>,
    T: Fn(V) -> Option<V>,
    N: Fn(V) -> Option<V>,
    F: Fn(&V) -> Option<String>,
>(
    bm: &BoundModel<V, C>,
    list: &Vec<BoundModel<V, C>>,
    system: &System<V, C>,
    eq: &E,
    as_vec: &A,
    make_vec: &M,
    arith: &O,
    to_entity_id: &T,
    to_number: &N,
    entity_id_of: &F,
    Ghost(depth): Ghost<nat>,
) -> (r: Option<Command<V>>)
    requires
        value_ops_sound(*eq, *as_vec, *make_vec),
        arith_decides(*arith),
        conv_decides(*to_entity_id),
        conv_decides(*to_number),
        forall|v: &V| entity_id_of.requires((v,)),
        reuse_acyclic(system.models@),
        bm.model.left.pattern is IMdl ==> system.models@.contains_key(
            bm.model.left.pattern->IMdl_0.model_id@,
        ),
        depth >= reuse_depth(system.models@, bm.model.left.pattern),
    ensures
        casual_command(
            bm.model,
            bm.bindings@,
            list@,
            system.models@,
            r,
            *eq,
            *as_vec,
            *make_vec,
            *arith,
            *to_entity_id,
            *to_number,
            *entity_id_of,
            depth,
        ),
    decreases depth,
{
    let models = &system.models;
    match &bm.model.left.pattern {
        MdlLeftValue::Command(_) => {
            match bm.model.left.pattern.filled_in(&bm.bindings, entity_id_of) {
                MdlLeftValue::Command(c) => Some(c),
                _ => None,
            }
        },
        MdlLeftValue::IMdl(imdl) => {
            let ghost rank = choose|rank: spec_fn(Seq<char>) -> nat| reuse_ranked(models@, rank);
            let filled = imdl.filled_in(&bm.bindings);
            let ghost d1 = (depth - 1) as nat;
            let mut k: usize = 0;
            while k < list.len()
                invariant
                    k <= list.len(),
                    value_ops_sound(*eq, *as_vec, *make_vec),
                    arith_decides(*arith),
                    conv_decides(*to_entity_id),
                    conv_decides(*to_number),
                    forall|v: &V| entity_id_of.requires((v,)),
                    *models == system.models,
                    reuse_ranked(models@, rank),
                    rank == choose|rank: spec_fn(Seq<char>) -> nat| reuse_ranked(models@, rank),
                    reuse_acyclic(models@),
                    depth > 0,
                    d1 == depth - 1,
                    rank(filled.model_id@) + 1 <= depth,
                    models@.contains_key(filled.model_id@),
                    imdl_filled(*imdl, filled, bm.bindings@),
                    bm.model.left.pattern == MdlLeftValue::IMdl(*imdl),
                    forall|r: Option<Command<V>>|
                        command_from(
                            filled,
                            list@,
                            k as int,
                            models@,
                            r,
                            *eq,
                            *as_vec,
                            *make_vec,
                            *arith,
                            *to_entity_id,
                            *to_number,
                            *entity_id_of,
                            d1,
                        ) ==> #[trigger] command_from(
                            filled,
                            list@,
                            0,
                            models@,
                            r,
                            *eq,
                            *as_vec,
                            *make_vec,
                            *arith,
                            *to_entity_id,
                            *to_number,
                            *entity_id_of,
                            d1,
                        ),
                decreases list.len() - k,
            {
                let inst = list[k].imdl_for_model();
                if compare_imdls(&filled, &inst, true, false, eq, as_vec) {
                    let copy = filled.clone();
                    let ghost g_copy = copy;
                    let ghost g_inst = inst;
                    let merged = copy.merge_with(inst, as_vec);
                    let ghost g_merged = merged;
                    let reused = merged.instantiate(
                        &StrMap::new(),
                        system,
                        make_vec,
                        arith,
                        to_entity_id,
                        to_number,
                    );
                    proof {
                        let i = filled.model_id@;
                        assert(cloned(models@[i].left.pattern, reused.model.left.pattern));
                        if models@[i].left.pattern is IMdl {
                            assert(models@.contains_key(i) && models@[i].left.pattern is IMdl);
                        }
                    }
                    let sub = casual_command_of(
                        &reused,
                        list,
                        system,
                        eq,
                        as_vec,
                        make_vec,
                        arith,
                        to_entity_id,
                        to_number,
                        entity_id_of,
                        Ghost(d1),
                    );
                    if sub.is_some() {
                        proof {
                            lemma_command_from_merged(
                                filled, list@, k as int, models@, sub, g_inst, g_copy, g_merged,
                                reused, sub, *eq, *as_vec, *make_vec, *arith, *to_entity_id,
                                *to_number, *entity_id_of, d1,
                            );
                            lemma_casual_command_reuse(
                                bm.model, bm.bindings@, filled, list@, models@, sub, *eq, *as_vec,
                                *make_vec, *arith, *to_entity_id, *to_number, *entity_id_of, depth,
                            );
                        }
                        return sub;
                    }
                    proof {
                        assert forall|r: Option<Command<V>>|
                            command_from(
                                filled,
                                list@,
                                k + 1,
                                models@,
                                r,
                                *eq,
                                *as_vec,
                                *make_vec,
                                *arith,
                                *to_entity_id,
                                *to_number,
                                *entity_id_of,
                                d1,
                            ) implies #[trigger] command_from(
                            filled,
                            list@,
                            0,
                            models@,
                            r,
                            *eq,
                            *as_vec,
                            *make_vec,
                            *arith,
                            *to_entity_id,
                            *to_number,
                            *entity_id_of,
                            d1,
                        ) by {
                            lemma_command_from_merged(
                                filled, list@, k as int, models@, r, g_inst, g_copy, g_merged,
                                reused, sub, *eq, *as_vec, *make_vec, *arith, *to_entity_id,
                                *to_number, *entity_id_of, d1,
                            );
                        }
                    }
                } else {
                    proof {
                        assert forall|r: Option<Command<V>>|
                            command_from(
                                filled,
                                list@,
                                k + 1,
                                models@,
                                r,
                                *eq,
                                *as_vec,
                                *make_vec,
                                *arith,
                                *to_entity_id,
                                *to_number,
                                *entity_id_of,
                                d1,
                            ) implies #[trigger] command_from(
                            filled,
                            list@,
                            0,
                            models@,
                            r,
                            *eq,
                            *as_vec,
                            *make_vec,
                            *arith,
                            *to_entity_id,
                            *to_number,
                            *entity_id_of,
                            d1,
                        ) by {
                            lemma_command_from_skip(
                                filled, list@, k as int, models@, r, inst, *eq, *as_vec, *make_vec,
                                *arith, *to_entity_id, *to_number, *entity_id_of, d1,
                            );
                        }
                    }
                }
                k = k + 1;
            }
            proof {
                lemma_casual_command_reuse(
                    bm.model, bm.bindings@, filled, list@, models@, None, *eq, *as_vec, *make_vec,
                    *arith, *to_entity_id, *to_number, *entity_id_of, depth,
                );
            }
            None
        },
        _ => None,
    }
}

/// The change to a variable that a deduced right-hand side makes: a
/// variable of a named entity with a value that needs no bindings.
pub open spec fn deduced_change<V: Clone, M: Fn(Vec<V>) -> V>(
    r: Option<Fact<MdlRightValue<V>>>,
    make_vec: M,
) -> Option<((Seq<char>, Seq<char>), V)> {
    match r {
        Some(f) => match f.pattern {
            MdlRightValue::MkVal(mv) => match mv.entity_id {
                EntityPatternValue::EntityId(id) => match value_with_bindings(
                    mv.value,
                    Map::empty(),
                    make_vec,
                ) {
                    Some(v) => Some(((id@, mv.var_name@), v)),
                    None => None,
                },
                _ => None,
            },
            _ => None,
        },
        None => None,
    }
}

/// `out` is what the bound model `m` deduces from the instantiation
/// `imdl_lhs` or, where that gives nothing, from the left-hand side
/// `self_lhs`.
pub open spec fn deduction_at<
    V: Clone,
    C,
    E: Fn(&V, &V) -> bool,
    A: Fn(&V) -> Option<Vec<V>>,
    M: Fn(Vec<V>) -> V,
    O: Fn(ArithOp, V, V) -> Option<V>,
    T: Fn(V) -> Option<V>,
    N: Fn(V) -> Option<V>,
    F: Fn(&V) -> Option<String>,
>(
    m: BoundModel<V, C>,
    imdl_lhs: Fact<MdlLeftValue<V>>,
    self_lhs: Fact<MdlLeftValue<V>>,
    anti: Seq<&IMdl<V>>,
    out: Option<Fact<MdlRightValue<V>>>,
    eq: E,
    as_vec: A,
    make_vec: M,
    arith: O,
    to_entity_id: T,
    to_number: N,
    entity_id_of: F,
) -> bool {
    ||| out is Some && deduced(m, imdl_lhs, anti, out, eq, as_vec, make_vec, arith, to_entity_id, to_number, entity_id_of)
    ||| deduced(m, imdl_lhs, anti, None, eq, as_vec, make_vec, arith, to_entity_id, to_number, entity_id_of)
        && deduced(m, self_lhs, anti, out, eq, as_vec, make_vec, arith, to_entity_id, to_number, entity_id_of)
}

/// The instantiation of the model with the bindings: the parameters bound
/// where the bindings hold them.
pub open spec fn bound_params<V: Clone, C>(model: Mdl<V, C>, m: Map<Seq<char>, V>) -> Seq<PatternItem<V>> {
    bound_icst_params(model_params(model), m)
}

/// No anti-requirement matches the instantiation of the bound model.
pub open spec fn no_anti_match<V: Clone, C, E: Fn(&V, &V) -> bool, A: Fn(&V) -> Option<Vec<V>>>(
    bm: BoundModel<V, C>,
    anti: Seq<&IMdl<V>>,
    eq: E,
    as_vec: A,
) -> bool {
    forall|k: int|
        0 <= k < anti.len() ==> anti_answer(
            *anti[k],
            bm.model.model_id,
            bound_params(bm.model, bm.bindings@),
            eq,
            as_vec,
            false,
        )
}

/// Some anti-requirement matches the instantiation of the bound model.
pub open spec fn anti_match<V: Clone, C, E: Fn(&V, &V) -> bool, A: Fn(&V) -> Option<Vec<V>>>(
    bm: BoundModel<V, C>,
    anti: Seq<&IMdl<V>>,
    eq: E,
    as_vec: A,
) -> bool {
    exists|k: int|
        0 <= k < anti.len() && anti_answer(
            *anti[k],
            bm.model.model_id,
            bound_params(bm.model, bm.bindings@),
            eq,
            as_vec,
            true,
        )
}

/// Predicting with the bound model `bm` does not stop on an unbound
/// entity: a model that predicts a value its instantiation is not
/// forbidden has its entity bound, and so does every model that a reuse
/// model reuses, through at most `depth` reuses.
pub open spec fn predict_ok<
    V: Clone,
    C: Clone,
    E: Fn(&V, &V) -> bool,
    A: Fn(&V) -> Option<Vec<V>>,
    M: Fn(Vec<V>) -> V,
    O: Fn(ArithOp, V, V) -> Option<V>,
    T: Fn(V) -> Option<V>,
    N: Fn(V) -> Option<V>,
>(
    bm: BoundModel<V, C>,
    anti: Seq<&IMdl<V>>,
    list: Seq<BoundModel<V, C>>,
    models: Map<Seq<char>, Mdl<V, C>>,
    eq: E,
    as_vec: A,
    make_vec: M,
    arith: O,
    to_entity_id: T,
    to_number: N,
    depth: nat,
) -> bool
    decreases depth,
{
    match bm.model.right.pattern {
        MdlRightValue::MkVal(mv) => if bm.model.left.pattern is IMdl {
            depth > 0 && forall|r: BoundModel<V, C>|
                #[trigger] reused_model(
                    bm,
                    list,
                    models,
                    Some(r),
                    eq,
                    as_vec,
                    make_vec,
                    arith,
                    to_entity_id,
                    to_number,
                ) ==> predict_ok(
                    r,
                    anti,
                    list,
                    models,
                    eq,
                    as_vec,
                    make_vec,
                    arith,
                    to_entity_id,
                    to_number,
                    (depth - 1) as nat,
                )
        } else {
            mv.entity_id is Binding && value_with_bindings(mv.value, bm.bindings@, make_vec) is Some
                && no_anti_match(bm, anti, eq, as_vec) ==> bm.bindings@.contains_key(
                mv.entity_id->Binding_0@,
            )
        },
        MdlRightValue::IMdl(_) => true,
    }
}

/// One way the state `ns` is predicted by the bound model `bm` from
/// `state`: with `self_imdl` its instantiation, `lhs` its left-hand side
/// filled in, `outs` what the bound models `list` deduce from either, and
/// `id` its entity; the variables take the deduced changes, then the
/// predicted value, and the instances of the system's composite states
/// are recomputed in them; the time stays.
pub open spec fn prediction_step<
    V: Clone,
    C: Clone,
    E: Fn(&V, &V) -> bool,
    A: Fn(&V) -> Option<Vec<V>>,
    M: Fn(Vec<V>) -> V,
    O: Fn(ArithOp, V, V) -> Option<V>,
    T: Fn(V) -> Option<V>,
    N: Fn(V) -> Option<V>,
    F: Fn(&V) -> Option<String>,
    I: Fn(&V) -> String,
    G: Fn(&String) -> V,
>(
    bm: BoundModel<V, C>,
    state: SystemState<V>,
    anti: Seq<&IMdl<V>>,
    list: Seq<BoundModel<V, C>>,
    system: System<V, C>,
    ns: SystemState<V>,
    self_imdl: IMdl<V>,
    lhs: MdlLeftValue<V>,
    outs: Seq<Option<Fact<MdlRightValue<V>>>>,
    id: String,
    eq: E,
    as_vec: A,
    make_vec: M,
    arith: O,
    to_entity_id: T,
    to_number: N,
    entity_id_of: F,
    id_of: I,
    entity_value: G,
) -> bool {
    let mv = bm.model.right.pattern->MkVal_0;
    let m = bm.bindings@;
    let wildcard = TimePatternRange { from: TimePatternValue::Any, to: TimePatternValue::Any };
    let imdl_lhs = Fact { pattern: MdlLeftValue::IMdl(self_imdl), time_range: wildcard };
    let self_lhs = Fact { pattern: lhs, time_range: bm.model.left.time_range };
    &&& imdl_bound(bm.model, m, self_imdl)
    &&& left_filled(bm.model.left.pattern, lhs, m, entity_id_of)
    &&& outs.len() == list.len()
    &&& forall|j: int|
        0 <= j < list.len() ==> deduction_at(
            #[trigger] list[j],
            imdl_lhs,
            self_lhs,
            anti,
            outs[j],
            eq,
            as_vec,
            make_vec,
            arith,
            to_entity_id,
            to_number,
            entity_id_of,
        )
    &&& match mv.entity_id {
        EntityPatternValue::Binding(b) => m.contains_key(b@) && id_of.ensures((&m[b@],), id),
        EntityPatternValue::EntityId(e) => id == e,
    }
    &&& ns.variables@ == state.variables@.union_prefer_right(
        entries_map(outs.filter_map(|o: Option<Fact<MdlRightValue<V>>>| deduced_change(o, make_vec))),
    ).insert((id@, mv.var_name@), value_with_bindings(mv.value, m, make_vec)->Some_0)
    &&& ns.time == state.time
    &&& forall|k: Seq<char>| #[trigger] ns.instansiated_csts@.contains_key(k) <==> system.csts@.contains_key(k)
    &&& forall|k: Seq<char>|
        #[trigger] ns.instansiated_csts@.contains_key(k) ==> state_instances(
            system.csts@[k],
            ns.instansiated_csts@[k]@,
            ns.variables@,
            system.entities_in_classes@,
            entity_value,
            id_of,
            eq,
            as_vec,
        )
}

/// `r` is the state that the causal model `bm` predicts from `state`:
/// none for a model whose right-hand side is no variable; for a reuse
/// model, what the model it reuses predicts, none where it reuses none;
/// otherwise none where an anti-requirement matches its instantiation or
/// its value has no value under its bindings, and else the state of
/// `prediction_step`.
pub open spec fn predicted<
    V: Clone,
    C: Clone,
    E: Fn(&V, &V) -> bool,
    A: Fn(&V) -> Option<Vec<V>>,
    M: Fn(Vec<V>) -> V,
    O: Fn(ArithOp, V, V) -> Option<V>,
    T: Fn(V) -> Option<V>,
    N: Fn(V) -> Option<V>,
    F: Fn(&V) -> Option<String>,
    I: Fn(&V) -> String,
    G: Fn(&String) -> V,
>(
    bm: BoundModel<V, C>,
    state: SystemState<V>,
    anti: Seq<&IMdl<V>>,
    list: Seq<BoundModel<V, C>>,
    system: System<V, C>,
    r: Option<SystemState<V>>,
    eq: E,
    as_vec: A,
    make_vec: M,
    arith: O,
    to_entity_id: T,
    to_number: N,
    entity_id_of: F,
    id_of: I,
    entity_value: G,
    depth: nat,
) -> bool
    decreases depth,
{
    match bm.model.right.pattern {
        MdlRightValue::IMdl(_) => r is None,
        MdlRightValue::MkVal(mv) => if bm.model.left.pattern is IMdl {
            depth > 0 && {
                ||| r is None && reused_model(
                    bm,
                    list,
                    system.models@,
                    None,
                    eq,
                    as_vec,
                    make_vec,
                    arith,
                    to_entity_id,
                    to_number,
                )
                ||| exists|rm: BoundModel<V, C>|
                    #[trigger] reused_model(
                        bm,
                        list,
                        system.models@,
                        Some(rm),
                        eq,
                        as_vec,
                        make_vec,
                        arith,
                        to_entity_id,
                        to_number,
                    ) && predicted(
                        rm,
                        state,
                        anti,
                        list,
                        system,
                        r,
                        eq,
                        as_vec,
                        make_vec,
                        arith,
                        to_entity_id,
                        to_number,
                        entity_id_of,
                        id_of,
                        entity_value,
                        (depth - 1) as nat,
                    )
            }
        } else {
            match r {
                None => anti_match(bm, anti, eq, as_vec) || value_with_bindings(
                    mv.value,
                    bm.bindings@,
                    make_vec,
                ) is None,
                Some(ns) => {
                    &&& no_anti_match(bm, anti, eq, as_vec)
                    &&& value_with_bindings(mv.value, bm.bindings@, make_vec) is Some
                    &&& exists|
                        self_imdl: IMdl<V>,
                        lhs: MdlLeftValue<V>,
                        outs: Seq<Option<Fact<MdlRightValue<V>>>>,
                        id: String,
                    |
                        #[trigger] prediction_step(
                            bm,
                            state,
                            anti,
                            list,
                            system,
                            ns,
                            self_imdl,
                            lhs,
                            outs,
                            id,
                            eq,
                            as_vec,
                            make_vec,
                            arith,
                            to_entity_id,
                            to_number,
                            entity_id_of,
                            id_of,
                            entity_value,
                        )
                },
            }
        },
    }
}

/// A copy of the variables, value for value.
fn copy_variables<V: Clone>(m: &KeyMap<(String, String), V>) -> (r: KeyMap<(String, String), V>)
    requires
        clones_equal::<V>(),
    ensures
        r@ == m@,
{
    let r = m.clone();
    proof {
        assert forall|i: int| 0 <= i < r.entries_view().len() implies r.entries_view()[i]
            == m.entries_view()[i] by {
            assert(cloned(m.entries_view()[i].1, r.entries_view()[i].1));
        }
        assert(r.entries_view() =~= m.entries_view());
    }
    r
}

/// The state that the bound model `bm` predicts, following at most
/// `depth` reuses (see `predicted`).
fn predicted_state_of<
    V: Clone,
    C: Clone,
    E: Fn(&V, &V) -> bool,
    A: Fn(&V) -> Option<Vec<V>>,
    M: Fn(Vec<V>) -> V,
    O: Fn(ArithOp, V, V) -> Option<V>,
    T: Fn(V) -> Option<V>,
    N: Fn(V) -> Option<V>,
    F: Fn(&V) -> Option<String>,
    I: Fn(&V) -> String,
    G: Fn(&String) -> V,
>(
    bm: &BoundModel<V, C>,
    state: &SystemState<V>,
    anti_requirements: &Vec<&IMdl<V>>,
    list: &Vec<BoundModel<V, C>>,
    system: &System<V, C>,
    eq: &E,
    as_vec: &A,
    make_vec: &M,
    arith: &O,
    to_entity_id: &T,
    to_number: &N,
    entity_id_of: &F,
    id_of: &I,
    entity_value: &G,
    Ghost(depth): Ghost<nat>,
) -> (r: Option<SystemState<V>>)
    requires
        value_ops_sound(*eq, *as_vec, *make_vec),
        arith_decides(*arith),
        conv_decides(*to_entity_id),
        conv_decides(*to_number),
        forall|v: &V| entity_id_of.requires((v,)),
        ids_decided(*id_of),
        entity_values_decided(*entity_value),
        reuse_acyclic(system.models@),
        bm.model.left.pattern is IMdl ==> system.models@.contains_key(
            bm.model.left.pattern->IMdl_0.model_id@,
        ),
        depth >= reuse_depth(system.models@, bm.model.left.pattern),
        predict_ok(
            *bm,
            anti_requirements@,
            list@,
            system.models@,
            *eq,
            *as_vec,
            *make_vec,
            *arith,
            *to_entity_id,
            *to_number,
            depth,
        ),
    ensures
        predicted(
            *bm,
            *state,
            anti_requirements@,
            list@,
            *system,
            r,
            *eq,
            *as_vec,
            *make_vec,
            *arith,
            *to_entity_id,
            *to_number,
            *entity_id_of,
            *id_of,
            *entity_value,
            depth,
        ),
    decreases depth,
{
    let mv = match &bm.model.right.pattern {
        MdlRightValue::MkVal(mv) => mv,
        MdlRightValue::IMdl(_) => {
            return None;
        },
    };
    if bm.model.is_reuse_model() {
        let reused = bm.get_reused_model(
            list,
            system,
            eq,
            as_vec,
            make_vec,
            arith,
            to_entity_id,
            to_number,
        );
        match reused {
            None => {
                return None;
            },
            Some(rm) => {
                proof {
                    let rank = choose|rank: spec_fn(Seq<char>) -> nat| reuse_ranked(system.models@, rank);
                    assert(reuse_ranked(system.models@, rank));
                    let filled = choose|filled: IMdl<V>|
                        #[trigger] imdl_filled(bm.model.left.pattern->IMdl_0, filled, bm.bindings@) && reused_from(
                            filled,
                            list@,
                            system.models@,
                            Some(rm),
                            *eq,
                            *as_vec,
                            *make_vec,
                            *arith,
                            *to_entity_id,
                            *to_number,
                        );
                    let (j, inst, merged) = choose|j: int, inst: IMdl<V>, merged: IMdl<V>|
                        {
                            &&& 0 <= j < list@.len()
                            &&& forall|k: int|
                                0 <= k < j ==> instance_missed(filled, #[trigger] list@[k], *eq, *as_vec)
                            &&& #[trigger] imdl_bound(list@[j].model, list@[j].bindings@, inst)
                            &&& imdl_compare_answer(filled, inst, *eq, *as_vec, true)
                            &&& merged.model_id == filled.model_id
                            &&& #[trigger] items_combined(filled.params@, inst.params@, merged.params@, *as_vec)
                            &&& merged.fwd_guard_bindings@ == filled.fwd_guard_bindings@.union_prefer_right(
                                inst.fwd_guard_bindings@,
                            )
                            &&& instantiated_as(
                                merged,
                                Map::empty(),
                                system.models@,
                                rm,
                                *make_vec,
                                *arith,
                                *to_entity_id,
                                *to_number,
                            )
                        };
                    let i = merged.model_id@;
                    assert(cloned(system.models@[i].left.pattern, rm.model.left.pattern));
                    if system.models@[i].left.pattern is IMdl {
                        assert(system.models@.contains_key(i) && system.models@[i].left.pattern is IMdl);
                    }
                }
                let r = predicted_state_of(
                    &rm,
                    state,
                    anti_requirements,
                    list,
                    system,
                    eq,
                    as_vec,
                    make_vec,
                    arith,
                    to_entity_id,
                    to_number,
                    entity_id_of,
                    id_of,
                    entity_value,
                    Ghost((depth - 1) as nat),
                );
                return r;
            },
        }
    }
    let self_imdl = bm.imdl_for_model();
    let ghost params = bound_params(bm.model, bm.bindings@);
    assert forall|i: int| 0 <= i < params.len() implies #[trigger] self_imdl.params@[i]
        == params[i] by {
        let b = model_params(bm.model)[i];
        if bm.bindings@.contains_key(b) {
            assert(cloned(bm.bindings@[b], self_imdl.params@[i]->Value_0));
        }
    }
    assert(self_imdl.params@ =~= params);
    let mut k: usize = 0;
    while k < anti_requirements.len()
        invariant
            k <= anti_requirements.len(),
            value_ops_sound(*eq, *as_vec, *make_vec),
            self_imdl.params@ == params,
            self_imdl.model_id == bm.model.model_id,
            params == bound_params(bm.model, bm.bindings@),
            bm.model.right.pattern == MdlRightValue::MkVal(*mv),
            !(bm.model.left.pattern is IMdl),
            forall|j: int|
                0 <= j < k ==> anti_answer(
                    *anti_requirements@[j],
                    bm.model.model_id,
                    params,
                    *eq,
                    *as_vec,
                    false,
                ),
        decreases anti_requirements.len() - k,
    {
        if compare_imdls(anti_requirements[k], &self_imdl, true, true, eq, as_vec) {
            assert(anti_answer(
                *anti_requirements@[k as int],
                bm.model.model_id,
                params,
                *eq,
                *as_vec,
                true,
            ));
            assert(anti_match(*bm, anti_requirements@, *eq, *as_vec));
            return None;
        }
        k = k + 1;
    }
    let value = match mv.value.get_value_with_bindings(&bm.bindings, make_vec) {
        Some(v) => v,
        None => {
            return None;
        },
    };
    let ghost g_imdl = self_imdl;
    let lhs = bm.filled_in_lhs(entity_id_of);
    let ghost g_lhs = lhs;
    let self_lhs = bm.model.left.with_pattern(lhs);
    let imdl_lhs = Fact::new(MdlLeftValue::IMdl(self_imdl), TimePatternRange::wildcard());
    let mut changes: KeyMap<(String, String), V> = KeyMap::new();
    let ghost mut outs: Seq<Option<Fact<MdlRightValue<V>>>> = Seq::empty();
    let mut j: usize = 0;
    while j < list.len()
        invariant
            j <= list.len(),
            value_ops_sound(*eq, *as_vec, *make_vec),
            arith_decides(*arith),
            conv_decides(*to_entity_id),
            conv_decides(*to_number),
            forall|v: &V| entity_id_of.requires((v,)),
            outs.len() == j,
            forall|t: int|
                0 <= t < j ==> deduction_at(
                    #[trigger] list@[t],
                    imdl_lhs,
                    self_lhs,
                    anti_requirements@,
                    outs[t],
                    *eq,
                    *as_vec,
                    *make_vec,
                    *arith,
                    *to_entity_id,
                    *to_number,
                    *entity_id_of,
                ),
            changes@ == entries_map(
                outs.filter_map(|o: Option<Fact<MdlRightValue<V>>>| deduced_change(o, *make_vec)),
            ),
        decreases list.len() - j,
    {
        let first = list[j].deduce(
            &imdl_lhs,
            anti_requirements,
            eq,
            as_vec,
            make_vec,
            arith,
            to_entity_id,
            to_number,
            entity_id_of,
        );
        let out = match first {
            Some(f) => Some(f),
            None => list[j].deduce(
                &self_lhs,
                anti_requirements,
                eq,
                as_vec,
                make_vec,
                arith,
                to_entity_id,
                to_number,
                entity_id_of,
            ),
        };
        let ghost before = outs;
        let ghost before_changes = changes@;
        proof {
            outs = outs.push(out);
            assert(outs.drop_last() =~= before);
        }
        match &out {
            Some(f) => match &f.pattern {
                MdlRightValue::MkVal(m2) => match &m2.entity_id {
                    EntityPatternValue::EntityId(id) => {
                        let empty: StrMap<V> = StrMap::new();
                        match m2.value.get_value_with_bindings(&empty, make_vec) {
                            Some(v) => {
                                changes.insert((id.clone(), m2.var_name.clone()), v);
                            },
                            None => {},
                        }
                    },
                    _ => {},
                },
                _ => {},
            },
            None => {},
        }
        proof {
            let f = |o: Option<Fact<MdlRightValue<V>>>| deduced_change(o, *make_vec);
            let prev = before.filter_map(f);
            assert(outs.filter_map(f) == match f(out) {
                Some(c) => prev + seq![c],
                None => prev,
            });
            match f(out) {
                Some(c) => {
                    assert((prev + seq![c]).drop_last() =~= prev);
                    assert(changes@ == before_changes.insert(c.0, c.1));
                },
                None => {
                    assert(changes@ == before_changes);
                },
            }
        }
        j = j + 1;
    }
    let id = match mv.entity_id.get_id_with_bindings(&bm.bindings, id_of) {
        Some(id) => id,
        None => {
            return None;
        },
    };
    let mut variables = copy_variables(&state.variables);
    variables.extend(changes);
    variables.insert((id, mv.var_name.clone()), value);
    let interim = SystemState { variables, instansiated_csts: StrMap::new(), time: state.time };
    let instances = compute_instantiated_states(system, &interim, entity_value, id_of, eq, as_vec);
    let ns = SystemState { variables: interim.variables, instansiated_csts: instances, time: state.time };
    proof {
        assert(prediction_step(
            *bm,
            *state,
            anti_requirements@,
            list@,
            *system,
            ns,
            g_imdl,
            g_lhs,
            outs,
            id,
            *eq,
            *as_vec,
            *make_vec,
            *arith,
            *to_entity_id,
            *to_number,
            *entity_id_of,
            *id_of,
            *entity_value,
        ));
    }
    Some(ns)
}

/// A predicted state holds the predicted value in the predicted variable,
/// and every variable of the state that no deduction changes and that is
/// not the predicted one keeps its value.
pub proof fn lemma_prediction_frame<
    V: Clone,
    C: Clone,
    E: Fn(&V, &V) -> bool,
    A: Fn(&V) -> Option<Vec<V>>,
    M: Fn(Vec<V>) -> V,
    O: Fn(ArithOp, V, V) -> Option<V>,
    T: Fn(V) -> Option<V>,
    N: Fn(V) -> Option<V>,
    F: Fn(&V) -> Option<String>,
    I: Fn(&V) -> String,
    G: Fn(&String) -> V,
>(
    bm: BoundModel<V, C>,
    state: SystemState<V>,
    anti: Seq<&IMdl<V>>,
    list: Seq<BoundModel<V, C>>,
    system: System<V, C>,
    ns: SystemState<V>,
    self_imdl: IMdl<V>,
    lhs: MdlLeftValue<V>,
    outs: Seq<Option<Fact<MdlRightValue<V>>>>,
    id: String,
    key: (Seq<char>, Seq<char>),
    eq: E,
    as_vec: A,
    make_vec: M,
    arith: O,
    to_entity_id: T,
    to_number: N,
    entity_id_of: F,
    id_of: I,
    entity_value: G,
)
    requires
        bm.model.right.pattern is MkVal,
        prediction_step(
            bm,
            state,
            anti,
            list,
            system,
            ns,
            self_imdl,
            lhs,
            outs,
            id,
            eq,
            as_vec,
            make_vec,
            arith,
            to_entity_id,
            to_number,
            entity_id_of,
            id_of,
            entity_value,
        ),
    ensures
        ({
            let mv = bm.model.right.pattern->MkVal_0;
            let predicted_key = (id@, mv.var_name@);
            &&& ns.variables@.contains_key(predicted_key)
            &&& ns.variables@[predicted_key] == value_with_bindings(mv.value, bm.bindings@, make_vec)->Some_0
            &&& (key != predicted_key && state.variables@.contains_key(key) && !entries_map(
                outs.filter_map(|o: Option<Fact<MdlRightValue<V>>>| deduced_change(o, make_vec)),
            ).contains_key(key)) ==> ns.variables@.contains_key(key) && ns.variables@[key]
                == state.variables@[key]
        }),
{
}

impl<V: Clone, C: Clone> Mdl<V, C> {
    /// The model with no bindings yet.
    pub fn as_bound_model(&self) -> (r: BoundModel<V, C>)
        ensures
            r.bindings@ == Map::<Seq<char>, V>::empty(),
            mdl_cloned(*self, r.model),
    {
        BoundModel { model: self.clone(), bindings: StrMap::new() }
    }

    /// The model bound from the instantiation that its right-hand side is
    /// to bring about: the bindings its own instantiation takes from
    /// `imdl`, then its backward functions computed.
    pub fn backward_chain_known_bindings_from_imdl<
        A: Fn(&V) -> Option<Vec<V>>,
        M: Fn(Vec<V>) -> V,
        O: Fn(ArithOp, V, V) -> Option<V>,
        T: Fn(V) -> Option<V>,
        N: Fn(V) -> Option<V>,
    >(
        &self,
        imdl: &IMdl<V>,
        as_vec: &A,
        make_vec: &M,
        arith: &O,
        to_entity_id: &T,
        to_number: &N,
    ) -> (r: BoundModel<V, C>)
        requires
            self.right.pattern is IMdl,
            as_vec_reads(*as_vec),
            make_vec_decides(*make_vec),
            clones_equal::<V>(),
            arith_decides(*arith),
            conv_decides(*to_entity_id),
            conv_decides(*to_number),
        ensures
            r.bindings@ == computed_after(
                extracted_map(
                    self.right.pattern->IMdl_0.params@,
                    imdl.params@,
                    *as_vec,
                    *make_vec,
                ),
                self.backward_computed@,
                *make_vec,
                *arith,
                *to_entity_id,
                *to_number,
            ),
            mdl_cloned(*self, r.model),
    {
        let self_imdl = self.right.pattern.as_imdl();
        let mut bindings = extract_bindings_from_patterns(
            &self_imdl.params,
            &imdl.params,
            as_vec,
            make_vec,
        );
        compute_bindings(
            &mut bindings,
            &self.backward_computed,
            make_vec,
            arith,
            to_entity_id,
            to_number,
        );
        BoundModel { model: self.clone(), bindings }
    }

    /// The model bound from each instance of its left-hand composite state
    /// among `instantiated` (by state id) that its instantiation matches,
    /// in order; none where its left-hand side is no instantiated state.
    pub fn try_instantiate_with_icst<
        E: Fn(&V, &V) -> bool,
        A: Fn(&V) -> Option<Vec<V>>,
        M: Fn(Vec<V>) -> V,
        O: Fn(ArithOp, V, V) -> Option<V>,
        T: Fn(V) -> Option<V>,
        N: Fn(V) -> Option<V>,
    >(
        &self,
        state: &SystemState<V>,
        eq: &E,
        as_vec: &A,
        make_vec: &M,
        arith: &O,
        to_entity_id: &T,
        to_number: &N,
    ) -> (r: Vec<BoundModel<V, C>>)
        requires
            value_ops_sound(*eq, *as_vec, *make_vec),
            arith_decides(*arith),
            conv_decides(*to_entity_id),
            conv_decides(*to_number),
        ensures
            match self.left.pattern {
                MdlLeftValue::ICst(icst) => exists|idx: Seq<int>|
                    bound_from_instances(
                        *self,
                        icst,
                        instances_of(state.instansiated_csts@, icst.cst_id@),
                        r@,
                        idx,
                        *eq,
                        *as_vec,
                        *make_vec,
                        *arith,
                        *to_entity_id,
                        *to_number,
                    ),
                _ => r@.len() == 0,
            },
    {
        let instantiated = &state.instansiated_csts;
        let icst = match &self.left.pattern {
            MdlLeftValue::ICst(icst) => icst,
            _ => {
                return Vec::new();
            },
        };
        let mut results: Vec<BoundModel<V, C>> = Vec::new();
        let states: &Vec<BoundCst<V>> = match instantiated.get(&icst.cst_id) {
            Some(states) => states,
            None => {
                let ghost idx: Seq<int> = Seq::empty();
                assert(bound_from_instances(
                    *self,
                    *icst,
                    instances_of(instantiated@, icst.cst_id@),
                    results@,
                    idx,
                    *eq,
                    *as_vec,
                    *make_vec,
                    *arith,
                    *to_entity_id,
                    *to_number,
                ));
                return results;
            },
        };
        let ghost mut idx: Seq<int> = Seq::empty();
        let mut i: usize = 0;
        while i < states.len()
            invariant
                i <= states.len(),
                states@ == instances_of(instantiated@, icst.cst_id@),
                self.left.pattern == MdlLeftValue::ICst(*icst),
                value_ops_sound(*eq, *as_vec, *make_vec),
                arith_decides(*arith),
                conv_decides(*to_entity_id),
                conv_decides(*to_number),
                forall|j: int| 0 <= j < idx.len() ==> #[trigger] idx[j] < i,
                bound_from_instances(
                    *self,
                    *icst,
                    states@.take(i as int),
                    results@,
                    idx,
                    *eq,
                    *as_vec,
                    *make_vec,
                    *arith,
                    *to_entity_id,
                    *to_number,
                ),
            decreases states.len() - i,
        {
            let ghost prev = states@.take(i as int);
            let ghost next = states@.take(i + 1);
            assert(forall|k: int| 0 <= k < i ==> #[trigger] next[k] == prev[k]);
            match states[i].match_and_get_bindings_for_icst(icst, eq, as_vec, make_vec) {
                PatternMatchResult::True(found) => {
                    let mut bindings = found;
                    compute_bindings(
                        &mut bindings,
                        &self.forward_computed,
                        make_vec,
                        arith,
                        to_entity_id,
                        to_number,
                    );
                    results.push(BoundModel { bindings, model: self.clone() });
                    proof {
                        let old_idx = idx;
                        idx = idx.push(i as int);
                        assert(idx.drop_last() =~= old_idx);
                        assert forall|k: int|
                            0 <= k < next.len() && !idx.contains(k) implies icst_instance_answer(
                            #[trigger] next[k],
                            *icst,
                            *eq,
                            *as_vec,
                            false,
                        ) by {
                            assert(idx[idx.len() - 1] == i as int);
                            assert(!idx.drop_last().contains(k)) by {
                                if idx.drop_last().contains(k) {
                                    let w = idx.drop_last().index_of(k);
                                    assert(idx[w] == k);
                                }
                            }
                            assert(k < i);
                            assert(next[k] == prev[k]);
                            assert(!old_idx.contains(k));
                            assert(icst_instance_answer(prev[k], *icst, *eq, *as_vec, false));
                        }
                    }
                },
                PatternMatchResult::False => {
                    proof {
                        assert forall|k: int|
                            0 <= k < next.len() && !idx.contains(k) implies icst_instance_answer(
                            #[trigger] next[k],
                            *icst,
                            *eq,
                            *as_vec,
                            false,
                        ) by {
                            if k < i {
                                assert(next[k] == prev[k]);
                            }
                        }
                    }
                },
            }
            i = i + 1;
        }
        assert(states@.take(states@.len() as int) =~= states@);
        results
    }
}

impl<V: Clone> IMdl<V> {
    /// The model this instantiates, among `models`.
    pub fn get_model<'a, C>(&self, system: &'a System<V, C>) -> (r: &'a Mdl<V, C>)
        requires
            system.models@.contains_key(self.model_id@),
        ensures
            *r == system.models@[self.model_id@],
    {
        system.models.get(&self.model_id).unwrap()
    }

    /// The bindings that this instantiation gives the parameters of its
    /// model, under `bindings`: each parameter of the model, in order, takes
    /// the value of the parameter in its place, where that has one.
    pub fn map_bindings_to_model<C, M: Fn(Vec<V>) -> V>(
        &self,
        bindings: &StrMap<V>,
        data: &System<V, C>,
        make_vec: &M,
    ) -> (r: StrMap<V>)
        requires
            data.models@.contains_key(self.model_id@),
            make_vec_decides(*make_vec),
            clones_equal::<V>(),
        ensures
            r@ == imdl_model_bindings(*self, data.models@[self.model_id@], bindings@, *make_vec),
    {
        let model = self.get_model(data);
        let names = model.binding_param();
        let n: usize = if names.len() < self.params.len() {
            names.len()
        } else {
            self.params.len()
        };
        let mut out: StrMap<V> = StrMap::new();
        let mut i: usize = 0;
        while i < n
            invariant
                i <= n,
                n <= names.len(),
                n <= self.params.len(),
                n == shorter(model_params(*model).len(), self.params@.len()),
                strings_view(names@) == model_params(*model),
                make_vec_decides(*make_vec),
                clones_equal::<V>(),
                out@ == mapped_to_model(
                    strings_view(names@),
                    self.params@,
                    bindings@,
                    *make_vec,
                    i as int,
                ),
            decreases n - i,
        {
            match self.params[i].get_value_with_bindings(bindings, make_vec) {
                Some(v) => {
                    out.insert(names[i].clone(), v);
                },
                None => {},
            }
            i = i + 1;
        }
        out
    }

    /// The model bound by this instantiation: the bindings it gives the
    /// model's parameters under `bindings`, overridden by its guard values,
    /// then the model's forward functions computed.
    pub fn instantiate<
        C: Clone,
        M: Fn(Vec<V>) -> V,
        O: Fn(ArithOp, V, V) -> Option<V>,
        T: Fn(V) -> Option<V>,
        N: Fn(V) -> Option<V>,
    >(
        &self,
        bindings: &StrMap<V>,
        data: &System<V, C>,
        make_vec: &M,
        arith: &O,
        to_entity_id: &T,
        to_number: &N,
    ) -> (r: BoundModel<V, C>)
        requires
            data.models@.contains_key(self.model_id@),
            make_vec_decides(*make_vec),
            clones_equal::<V>(),
            arith_decides(*arith),
            conv_decides(*to_entity_id),
            conv_decides(*to_number),
        ensures
            instantiated_as(
                *self,
                bindings@,
                data.models@,
                r,
                *make_vec,
                *arith,
                *to_entity_id,
                *to_number,
            ),
    {
        let models = &data.models;
        let model = self.get_model(data);
        let mut found = self.map_bindings_to_model(bindings, data, make_vec);
        found.extend(copy_bindings(&self.fwd_guard_bindings));
        compute_bindings(&mut found, &model.forward_computed, make_vec, arith, to_entity_id, to_number);
        BoundModel { bindings: found, model: model.clone() }
    }
}

impl<V: Clone, C> BoundModel<V, C> {
    /// Abduces what would bring about `input`: the model's right-hand side,
    /// with the bindings filled in, must match the input; the bindings the
    /// match found, overridden by the model's own, are extended by the
    /// backward functions; then the left-hand side says what is to hold
    /// (see `abduced`), composite states read from `csts` by id.
    pub fn abduce<
        E: Fn(&V, &V) -> bool,
        A: Fn(&V) -> Option<Vec<V>>,
        M: Fn(Vec<V>) -> V,
        O: Fn(ArithOp, V, V) -> Option<V>,
        T: Fn(V) -> Option<V>,
        N: Fn(V) -> Option<V>,
        F: Fn(&V) -> Option<String>,
    >(
        &self,
        input: &Fact<MdlRightValue<V>>,
        system: &System<V, C>,
        eq: &E,
        as_vec: &A,
        make_vec: &M,
        arith: &O,
        to_entity_id: &T,
        to_number: &N,
        entity_id_of: F,
    ) -> (r: Option<AbductionResult<V>>)
        requires
            value_ops_sound(*eq, *as_vec, *make_vec),
            arith_decides(*arith),
            conv_decides(*to_entity_id),
            conv_decides(*to_number),
            forall|v: &V| entity_id_of.requires((v,)),
            self.model.left.pattern is ICst ==> {
                let icst = self.model.left.pattern->ICst_0;
                &&& system.csts@.contains_key(icst.cst_id@)
                &&& expandable(system.csts@[icst.cst_id@], icst.params@)
            },
        ensures
            match r {
                None => right_match_outcome(
                    self.model.right.pattern,
                    self.bindings@,
                    input.pattern,
                    *eq,
                    *as_vec,
                    *make_vec,
                    PatternMatchResult::False,
                ),
                Some(res) => exists|found: StrMap<V>|
                    #[trigger] right_match_outcome(
                        self.model.right.pattern,
                        self.bindings@,
                        input.pattern,
                        *eq,
                        *as_vec,
                        *make_vec,
                        PatternMatchResult::True(found),
                    ) && abduced(
                        self.model,
                        computed_after(
                            found@.union_prefer_right(self.bindings@),
                            self.model.backward_computed@,
                            *make_vec,
                            *arith,
                            *to_entity_id,
                            *to_number,
                        ),
                        system.csts@,
                        res,
                        entity_id_of,
                    ),
            },
    {
        let csts = &system.csts;
        let outcome = self.model.right.pattern.matches(
            &self.bindings,
            &input.pattern,
            eq,
            as_vec,
            make_vec,
        );
        let ghost g_outcome = outcome;
        let found = match outcome {
            PatternMatchResult::True(found) => found,
            PatternMatchResult::False => {
                return None;
            },
        };
        let ghost g_found = found;
        assert(g_outcome == PatternMatchResult::True(g_found));
        let mut bindings = found;
        bindings.extend(copy_bindings(&self.bindings));
        compute_bindings(
            &mut bindings,
            &self.model.backward_computed,
            make_vec,
            arith,
            to_entity_id,
            to_number,
        );
        let imdl = imdl_for(&self.model, &bindings);
        let res = match &self.model.left.pattern {
            MdlLeftValue::ICst(icst) => {
                let filled = ICst {
                    cst_id: icst.cst_id.clone(),
                    params: filled_copy_items(&icst.params, &bindings),
                };
                let cst = csts.get(&icst.cst_id).unwrap().clone();
                proof {
                    assert forall|i: int| 0 <= i < icst.params@.len() implies (
                    #[trigger] filled.params@[i] is Any) == (icst.params@[i] is Any) by {
                        lemma_filled_copy_any(icst.params@[i], filled.params@[i], bindings@);
                    }
                }
                let ghost c = cst;
                let expanded = filled.expand_cst(cst, entity_id_of);
                proof {
                    let pm = choose|pm: Map<Seq<char>, PatternItem<V>>|
                        {
                            &&& params_bound(pm, cst_binding_params(c), filled.params@)
                            &&& expanded.facts@.len() == c.facts@.len()
                            &&& forall|i: int|
                                0 <= i < expanded.facts@.len() ==> fact_expanded(
                                    #[trigger] c.facts@[i],
                                    expanded.facts@[i],
                                    pm,
                                    entity_id_of,
                                )
                        };
                    assert(cst_cloned(csts@[icst.cst_id@], c));
                    assert(params_bound(pm, cst_binding_params(csts@[icst.cst_id@]), filled.params@));
                    assert(cst_expanded(
                        csts@[icst.cst_id@],
                        filled.params@,
                        expanded.facts@,
                        entity_id_of,
                    ));
                }
                let id = icst.cst_id.clone();
                AbductionResult::SubGoal(expanded.facts, Some(id), imdl, Some(filled))
            },
            MdlLeftValue::MkVal(mk_val) => {
                let filled = filled_mk_val(mk_val, &bindings, &entity_id_of);
                let fact = self.model.left.with_pattern(filled);
                let mut facts: Vec<Fact<MkVal<V>>> = Vec::new();
                facts.push(fact);
                AbductionResult::SubGoal(facts, None, imdl, None)
            },
            _ => AbductionResult::IMdl(imdl),
        };
        proof {
            assert(right_match_outcome(
                self.model.right.pattern,
                self.bindings@,
                input.pattern,
                *eq,
                *as_vec,
                *make_vec,
                PatternMatchResult::True(g_found),
            ));
            assert(abduced(self.model, bindings@, csts@, res, entity_id_of));
        }
        Some(res)
    }
}

impl<V: Clone, C: Clone> BoundModel<V, C> {
    /// The model this one reuses, among `instantiated_casual_models` (see
    /// `reused_model`), instantiated from `models`.
    pub fn get_reused_model<
        E: Fn(&V, &V) -> bool,
        A: Fn(&V) -> Option<Vec<V>>,
        M: Fn(Vec<V>) -> V,
        O: Fn(ArithOp, V, V) -> Option<V>,
        T: Fn(V) -> Option<V>,
        N: Fn(V) -> Option<V>,
    >(
        &self,
        instantiated_casual_models: &Vec<BoundModel<V, C>>,
        system: &System<V, C>,
        eq: &E,
        as_vec: &A,
        make_vec: &M,
        arith: &O,
        to_entity_id: &T,
        to_number: &N,
    ) -> (r: Option<BoundModel<V, C>>)
        requires
            value_ops_sound(*eq, *as_vec, *make_vec),
            arith_decides(*arith),
            conv_decides(*to_entity_id),
            conv_decides(*to_number),
            self.model.left.pattern is IMdl ==> system.models@.contains_key(
                self.model.left.pattern->IMdl_0.model_id@,
            ),
        ensures
            reused_model(
                *self,
                instantiated_casual_models@,
                system.models@,
                r,
                *eq,
                *as_vec,
                *make_vec,
                *arith,
                *to_entity_id,
                *to_number,
            ),
    {
        let models = &system.models;
        let imdl = match &self.model.left.pattern {
            MdlLeftValue::IMdl(imdl) => imdl,
            _ => {
                return None;
            },
        };
        let filled = imdl.filled_in(&self.bindings);
        let list = instantiated_casual_models;
        let mut i: usize = 0;
        while i < list.len()
            invariant
                i <= list.len(),
                value_ops_sound(*eq, *as_vec, *make_vec),
                arith_decides(*arith),
                conv_decides(*to_entity_id),
                conv_decides(*to_number),
                models@.contains_key(filled.model_id@),
                *models == system.models,
                imdl_filled(*imdl, filled, self.bindings@),
                self.model.left.pattern == MdlLeftValue::IMdl(*imdl),
                list@ == instantiated_casual_models@,
                forall|k: int| 0 <= k < i ==> instance_missed(filled, #[trigger] list@[k], *eq, *as_vec),
            decreases list.len() - i,
        {
            let inst = list[i].imdl_for_model();
            if compare_imdls(&filled, &inst, true, false, eq, as_vec) {
                let ghost g_inst = inst;
                let ghost g_filled = filled;
                let merged = filled.merge_with(inst, as_vec);
                let ghost g_merged = merged;
                let reused = merged.instantiate(
                    &StrMap::new(),
                    system,
                    make_vec,
                    arith,
                    to_entity_id,
                    to_number,
                );
                proof {
                    lemma_reused_from_found(
                        g_filled,
                        instantiated_casual_models@,
                        models@,
                        reused,
                        i as int,
                        g_inst,
                        g_merged,
                        *eq,
                        *as_vec,
                        *make_vec,
                        *arith,
                        *to_entity_id,
                        *to_number,
                    );
                    lemma_reused_model_of(
                        *self,
                        g_filled,
                        instantiated_casual_models@,
                        models@,
                        Some(reused),
                        *eq,
                        *as_vec,
                        *make_vec,
                        *arith,
                        *to_entity_id,
                        *to_number,
                    );
                }
                return Some(reused);
            }
            proof {
                assert(imdl_bound(list@[i as int].model, list@[i as int].bindings@, inst));
                assert(instance_missed(filled, list@[i as int], *eq, *as_vec));
            }
            i = i + 1;
        }
        proof {
            lemma_reused_model_of(
                *self,
                filled,
                instantiated_casual_models@,
                models@,
                None,
                *eq,
                *as_vec,
                *make_vec,
                *arith,
                *to_entity_id,
                *to_number,
            );
        }
        None
    }
}

impl<V: Clone, C: Clone> BoundModel<V, C> {
    /// The command that this causal model would execute to bring about its
    /// right-hand side: its own left-hand command, filled in, or that of
    /// the model it reuses among `instantiated_casual_models` (see
    /// `casual_command`, which follows as many reuses as the models allow).
    pub fn get_casual_model_command<
        E: Fn(&V, &V) -> bool,
        A: Fn(&V) -> Option<Vec<V>>,
        M: Fn(Vec<V>) -> V,
        O: Fn(ArithOp, V, V) -> Option<V>,
        T: Fn(V) -> Option<V>,
        N: Fn(V) -> Option<V>,
        F: Fn(&V) -> Option<String>,
    >(
        &self,
        instantiated_casual_models: &Vec<BoundModel<V, C>>,
        system: &System<V, C>,
        eq: &E,
        as_vec: &A,
        make_vec: &M,
        arith: &O,
        to_entity_id: &T,
        to_number: &N,
        entity_id_of: &F,
    ) -> (r: Option<Command<V>>)
        requires
            value_ops_sound(*eq, *as_vec, *make_vec),
            arith_decides(*arith),
            conv_decides(*to_entity_id),
            conv_decides(*to_number),
            forall|v: &V| entity_id_of.requires((v,)),
            reuse_acyclic(system.models@),
            self.model.left.pattern is IMdl ==> system.models@.contains_key(
                self.model.left.pattern->IMdl_0.model_id@,
            ),
        ensures
            casual_command(
                self.model,
                self.bindings@,
                instantiated_casual_models@,
                system.models@,
                r,
                *eq,
                *as_vec,
                *make_vec,
                *arith,
                *to_entity_id,
                *to_number,
                *entity_id_of,
                reuse_depth(system.models@, self.model.left.pattern),
            ),
    {
        let models = &system.models;
        casual_command_of(
            self,
            instantiated_casual_models,
            system,
            eq,
            as_vec,
            make_vec,
            arith,
            to_entity_id,
            to_number,
            entity_id_of,
            Ghost(reuse_depth(models@, self.model.left.pattern)),
        )
    }
}

impl<V: Clone, C: Clone> BoundModel<V, C> {
    /// The state that executing this causal model would bring about from
    /// `state` (see `predicted`, which follows as many reuses as the models
    /// allow): the variable it predicts takes its value, after the changes
    /// that the other instantiated causal models deduce from it, and the
    /// instances of the system's composite states are recomputed.
    pub fn predict_state_change<
        E: Fn(&V, &V) -> bool,
        A: Fn(&V) -> Option<Vec<V>>,
        M: Fn(Vec<V>) -> V,
        O: Fn(ArithOp, V, V) -> Option<V>,
        T: Fn(V) -> Option<V>,
        N: Fn(V) -> Option<V>,
        F: Fn(&V) -> Option<String>,
        I: Fn(&V) -> String,
        G: Fn(&String) -> V,
    >(
        &self,
        state: &SystemState<V>,
        anti_requirements: &Vec<&IMdl<V>>,
        instantiated_casual_models: &Vec<BoundModel<V, C>>,
        system: &System<V, C>,
        eq: &E,
        as_vec: &A,
        make_vec: &M,
        arith: &O,
        to_entity_id: &T,
        to_number: &N,
        entity_id_of: &F,
        id_of: &I,
        entity_value: &G,
    ) -> (r: Option<SystemState<V>>)
        requires
            value_ops_sound(*eq, *as_vec, *make_vec),
            arith_decides(*arith),
            conv_decides(*to_entity_id),
            conv_decides(*to_number),
            forall|v: &V| entity_id_of.requires((v,)),
            ids_decided(*id_of),
            entity_values_decided(*entity_value),
            reuse_acyclic(system.models@),
            self.model.left.pattern is IMdl ==> system.models@.contains_key(
                self.model.left.pattern->IMdl_0.model_id@,
            ),
            predict_ok(
                *self,
                anti_requirements@,
                instantiated_casual_models@,
                system.models@,
                *eq,
                *as_vec,
                *make_vec,
                *arith,
                *to_entity_id,
                *to_number,
                reuse_depth(system.models@, self.model.left.pattern),
            ),
        ensures
            predicted(
                *self,
                *state,
                anti_requirements@,
                instantiated_casual_models@,
                *system,
                r,
                *eq,
                *as_vec,
                *make_vec,
                *arith,
                *to_entity_id,
                *to_number,
                *entity_id_of,
                *id_of,
                *entity_value,
                reuse_depth(system.models@, self.model.left.pattern),
            ),
    {
        predicted_state_of(
            self,
            state,
            anti_requirements,
            instantiated_casual_models,
            system,
            eq,
            as_vec,
            make_vec,
            arith,
            to_entity_id,
            to_number,
            entity_id_of,
            id_of,
            entity_value,
            Ghost(reuse_depth(system.models@, self.model.left.pattern)),
        )
    }
}

} // verus!
