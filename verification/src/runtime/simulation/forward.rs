//! Forward chaining's parts: the instantiations that requirement models
//! give from a state's composite state instances, their merging with the
//! instantiations that backward chaining found for the goal, and the
//! commands along the goal path of a forward chaining tree.

use vstd::prelude::*;
use crate::runtime::pattern_matching::{compare_imdls, patterns_compare_answer, value_ops_sound, items_combined};
use crate::str_map::StrMap;
use crate::types::functions::{arith_decides, conv_decides, ArithOp};
use crate::types::instances::instantiated_as;
use crate::types::models::{computed_after, imdl_cloned, BoundModel, IMdl, Mdl};
use crate::types::runtime::{RuntimeCommand, System, SystemState};
use crate::types::cst::{cst_binding_params, BoundCst, ICst};
use crate::types::models::{deduced, mdl_cloned, MdlLeftValue, MdlRightValue};
use crate::types::pattern::PatternItem;
use crate::types::{Fact, TimePatternRange, TimePatternValue};
use crate::runtime::utils::all_req_models;
use crate::runtime::simulation::backward::req_models_of;

verus! {

/// Whether instantiation `a` matches `b` (`res`), unbound items allowed
/// and lengths free: the same model and parameters that compare.
pub open spec fn imdls_match_answer<V: Clone, E: Fn(&V, &V) -> bool, A: Fn(&V) -> Option<Vec<V>>>(
    a: IMdl<V>,
    b: IMdl<V>,
    eq: E,
    as_vec: A,
    res: bool,
) -> bool {
    if a.model_id@ == b.model_id@ {
        patterns_compare_answer(a.params@, b.params@, true, true, eq, as_vec, res)
    } else {
        !res
    }
}

/// `merged` merges copies of `imdl` and `goal`, and `b0` is the model it
/// instantiates among `models`.
pub open spec fn merge_instance<
    V: Clone,
    C: Clone,
    A: Fn(&V) -> Option<Vec<V>>,
    M: Fn(Vec<V>) -> V,
    O: Fn(ArithOp, V, V) -> Option<V>,
    T: Fn(V) -> Option<V>,
    N: Fn(V) -> Option<V>,
>(
    imdl: IMdl<V>,
    goal: IMdl<V>,
    c1: IMdl<V>,
    c2: IMdl<V>,
    merged: IMdl<V>,
    b0: BoundModel<V, C>,
    models: Map<Seq<char>, Mdl<V, C>>,
    as_vec: A,
    make_vec: M,
    arith: O,
    to_entity_id: T,
    to_number: N,
) -> bool {
    &&& imdl_cloned(imdl, c1)
    &&& imdl_cloned(goal, c2)
    &&& merged.model_id == c1.model_id
    &&& items_combined(c1.params@, c2.params@, merged.params@, as_vec)
    &&& merged.fwd_guard_bindings@ == c1.fwd_guard_bindings@.union_prefer_right(c2.fwd_guard_bindings@)
    &&& instantiated_as(merged, Map::empty(), models, b0, make_vec, arith, to_entity_id, to_number)
}

/// `bm` is the model that the forward-chained instantiation `imdl` and the
/// backward-chained `goal` give: their merge instantiated among the
/// system's models, then its backward and then its forward functions
/// computed.
pub open spec fn merged_goal_model<
    V: Clone,
    C: Clone,
    A: Fn(&V) -> Option<Vec<V>>,
    M: Fn(Vec<V>) -> V,
    O: Fn(ArithOp, V, V) -> Option<V>,
    T: Fn(V) -> Option<V>,
    N: Fn(V) -> Option<V>,
>(
    imdl: IMdl<V>,
    goal: IMdl<V>,
    bm: BoundModel<V, C>,
    models: Map<Seq<char>, Mdl<V, C>>,
    as_vec: A,
    make_vec: M,
    arith: O,
    to_entity_id: T,
    to_number: N,
) -> bool {
    exists|c1: IMdl<V>, c2: IMdl<V>, merged: IMdl<V>, b0: BoundModel<V, C>|
        #[trigger] merge_instance(
            imdl,
            goal,
            c1,
            c2,
            merged,
            b0,
            models,
            as_vec,
            make_vec,
            arith,
            to_entity_id,
            to_number,
        ) && bm.model == b0.model && bm.bindings@ == computed_after(
            computed_after(
                b0.bindings@,
                b0.model.backward_computed@,
                make_vec,
                arith,
                to_entity_id,
                to_number,
            ),
            b0.model.forward_computed@,
            make_vec,
            arith,
            to_entity_id,
            to_number,
        )
}

/// The `t`-th merged model comes from a goal instantiation that matches.
pub open spec fn merged_entry<
    V: Clone,
    C: Clone,
    E: Fn(&V, &V) -> bool,
    A: Fn(&V) -> Option<Vec<V>>,
    M: Fn(Vec<V>) -> V,
    O: Fn(ArithOp, V, V) -> Option<V>,
    T: Fn(V) -> Option<V>,
    N: Fn(V) -> Option<V>,
>(
    imdl: IMdl<V>,
    goals: Seq<IMdl<V>>,
    out: Seq<BoundModel<V, C>>,
    idx: Seq<int>,
    t: int,
    models: Map<Seq<char>, Mdl<V, C>>,
    eq: E,
    as_vec: A,
    make_vec: M,
    arith: O,
    to_entity_id: T,
    to_number: N,
) -> bool {
    &&& imdls_match_answer(goals[idx[t]], imdl, eq, as_vec, true)
    &&& merged_goal_model(
        imdl,
        goals[idx[t]],
        out[t],
        models,
        as_vec,
        make_vec,
        arith,
        to_entity_id,
        to_number,
    )
}

/// `out` holds, in order, the model that `imdl` gives with each of the
/// goal instantiations `goals[idx[t]]`, and `idx` lists every goal
/// instantiation that matches `imdl`.
pub open spec fn merged_with_goals<
    V: Clone,
    C: Clone,
    E: Fn(&V, &V) -> bool,
    A: Fn(&V) -> Option<Vec<V>>,
    M: Fn(Vec<V>) -> V,
    O: Fn(ArithOp, V, V) -> Option<V>,
    T: Fn(V) -> Option<V>,
    N: Fn(V) -> Option<V>,
>(
    imdl: IMdl<V>,
    goals: Seq<IMdl<V>>,
    out: Seq<BoundModel<V, C>>,
    idx: Seq<int>,
    models: Map<Seq<char>, Mdl<V, C>>,
    eq: E,
    as_vec: A,
    make_vec: M,
    arith: O,
    to_entity_id: T,
    to_number: N,
) -> bool {
    &&& idx.len() == out.len()
    &&& forall|t: int| 0 <= t < idx.len() ==> 0 <= #[trigger] idx[t] < goals.len()
    &&& forall|t: int, u: int| 0 <= t < u < idx.len() ==> idx[t] < idx[u]
    &&& forall|t: int|
        0 <= t < idx.len() ==> #[trigger] merged_entry(
            imdl,
            goals,
            out,
            idx,
            t,
            models,
            eq,
            as_vec,
            make_vec,
            arith,
            to_entity_id,
            to_number,
        )
    &&& forall|j: int|
        0 <= j < goals.len() && !idx.contains(j) ==> imdls_match_answer(
            #[trigger] goals[j],
            imdl,
            eq,
            as_vec,
            false,
        )
}

/// A goal instantiation that does not match leaves the merged models as
/// they are.
proof fn lemma_merged_skip<
    V: Clone,
    C: Clone,
    E: Fn(&V, &V) -> bool,
    A: Fn(&V) -> Option<Vec<V>>,
    M: Fn(Vec<V>) -> V,
    O: Fn(ArithOp, V, V) -> Option<V>,
    T: Fn(V) -> Option<V>,
    N: Fn(V) -> Option<V>,
>(
    imdl: IMdl<V>,
    goals: Seq<IMdl<V>>,
    g: IMdl<V>,
    out: Seq<BoundModel<V, C>>,
    idx: Seq<int>,
    models: Map<Seq<char>, Mdl<V, C>>,
    eq: E,
    as_vec: A,
    make_vec: M,
    arith: O,
    to_entity_id: T,
    to_number: N,
)
    requires
        merged_with_goals(imdl, goals, out, idx, models, eq, as_vec, make_vec, arith, to_entity_id, to_number),
        imdls_match_answer(g, imdl, eq, as_vec, false),
    ensures
        merged_with_goals(imdl, goals.push(g), out, idx, models, eq, as_vec, make_vec, arith, to_entity_id, to_number),
{
    let next = goals.push(g);
    assert forall|t: int| 0 <= t < idx.len() implies #[trigger] merged_entry(
        imdl,
        next,
        out,
        idx,
        t,
        models,
        eq,
        as_vec,
        make_vec,
        arith,
        to_entity_id,
        to_number,
    ) by {
        assert(merged_entry(imdl, goals, out, idx, t, models, eq, as_vec, make_vec, arith, to_entity_id, to_number));
        assert(next[idx[t]] == goals[idx[t]]);
    }
    assert forall|j: int| 0 <= j < next.len() && !idx.contains(j) implies imdls_match_answer(
        #[trigger] next[j],
        imdl,
        eq,
        as_vec,
        false,
    ) by {
        if j < goals.len() {
            assert(next[j] == goals[j]);
        }
    }
}

/// A goal instantiation that matches adds the model it gives.
proof fn lemma_merged_add<
    V: Clone,
    C: Clone,
    E: Fn(&V, &V) -> bool,
    A: Fn(&V) -> Option<Vec<V>>,
    M: Fn(Vec<V>) -> V,
    O: Fn(ArithOp, V, V) -> Option<V>,
    T: Fn(V) -> Option<V>,
    N: Fn(V) -> Option<V>,
>(
    imdl: IMdl<V>,
    goals: Seq<IMdl<V>>,
    g: IMdl<V>,
    out: Seq<BoundModel<V, C>>,
    idx: Seq<int>,
    bm: BoundModel<V, C>,
    models: Map<Seq<char>, Mdl<V, C>>,
    eq: E,
    as_vec: A,
    make_vec: M,
    arith: O,
    to_entity_id: T,
    to_number: N,
)
    requires
        merged_with_goals(imdl, goals, out, idx, models, eq, as_vec, make_vec, arith, to_entity_id, to_number),
        forall|t: int| 0 <= t < idx.len() ==> #[trigger] idx[t] < goals.len(),
        imdls_match_answer(g, imdl, eq, as_vec, true),
        merged_goal_model(imdl, g, bm, models, as_vec, make_vec, arith, to_entity_id, to_number),
    ensures
        merged_with_goals(imdl, goals.push(g), out.push(bm), idx.push(goals.len() as int), models, eq, as_vec, make_vec, arith, to_entity_id, to_number),
{
    let next = goals.push(g);
    let nidx = idx.push(goals.len() as int);
    let nout = out.push(bm);
    assert forall|t: int| 0 <= t < nidx.len() implies #[trigger] merged_entry(
        imdl,
        next,
        nout,
        nidx,
        t,
        models,
        eq,
        as_vec,
        make_vec,
        arith,
        to_entity_id,
        to_number,
    ) by {
        if t < idx.len() {
            assert(merged_entry(imdl, goals, out, idx, t, models, eq, as_vec, make_vec, arith, to_entity_id, to_number));
            assert(nout[t] == out[t]);
            assert(nidx[t] == idx[t]);
            assert(next[idx[t]] == goals[idx[t]]);
        }
    }
    assert forall|j: int| 0 <= j < next.len() && !nidx.contains(j) implies imdls_match_answer(
        #[trigger] next[j],
        imdl,
        eq,
        as_vec,
        false,
    ) by {
        assert(nidx[nidx.len() - 1] == goals.len() as int);
        assert(!idx.contains(j)) by {
            if idx.contains(j) {
                let w = idx.index_of(j);
                assert(nidx[w] == j);
            }
        }
        assert(next[j] == goals[j]);
    }
    assert forall|t: int| 0 <= t < nidx.len() implies 0 <= #[trigger] nidx[t] < next.len() by {
        if t < idx.len() {
            assert(nidx[t] == idx[t]);
        }
    }
    assert forall|t: int, u: int| 0 <= t < u < nidx.len() implies nidx[t] < nidx[u] by {
        if u < idx.len() {
            assert(nidx[t] == idx[t] && nidx[u] == idx[u]);
        } else {
            assert(nidx[t] == idx[t]);
        }
    }
}

/// The forward-chained instantiations that are no anti-facts, in order.
pub open spec fn plain_instances<V: Clone>(fwd: Seq<(IMdl<V>, bool)>) -> Seq<IMdl<V>> {
    fwd.filter(|p: (IMdl<V>, bool)| !p.1).map_values(|p: (IMdl<V>, bool)| p.0)
}

/// One way the merged models come out: `per[i]` are those that the `i`-th
/// forward-chained instantiation gives with the goal instantiations, none
/// for an anti-fact, and `merged` lists them in turn.
pub open spec fn forward_backward_with<
    V: Clone,
    C: Clone,
    E: Fn(&V, &V) -> bool,
    A: Fn(&V) -> Option<Vec<V>>,
    M: Fn(Vec<V>) -> V,
    O: Fn(ArithOp, V, V) -> Option<V>,
    T: Fn(V) -> Option<V>,
    N: Fn(V) -> Option<V>,
>(
    fwd: Seq<(IMdl<V>, bool)>,
    goals: Seq<IMdl<V>>,
    models: Map<Seq<char>, Mdl<V, C>>,
    merged: Seq<BoundModel<V, C>>,
    per: Seq<Seq<BoundModel<V, C>>>,
    eq: E,
    as_vec: A,
    make_vec: M,
    arith: O,
    to_entity_id: T,
    to_number: N,
) -> bool {
    &&& per.len() == fwd.len()
    &&& forall|i: int|
        0 <= i < fwd.len() ==> if (#[trigger] fwd[i]).1 {
            per[i].len() == 0
        } else {
            exists|idx: Seq<int>|
                merged_with_goals(
                    fwd[i].0,
                    goals,
                    per[i],
                    idx,
                    models,
                    eq,
                    as_vec,
                    make_vec,
                    arith,
                    to_entity_id,
                    to_number,
                )
        }
    &&& merged == Seq::new(fwd.len(), |i: int| per[i]).flatten_alt()
}

/// Merges the forward-chained instantiations of causal models with the
/// instantiations that backward chaining found for the goal. Skipping
/// anti-facts, each forward-chained instantiation is instantiated among the
/// system's models (the first list); and merged with each goal
/// instantiation that matches it, instantiated, with its backward and then
/// its forward functions computed (the second list, see
/// `forward_backward_with`).
pub fn compute_merged_forward_backward_models<
    V: Clone,
    C: Clone,
    E: Fn(&V, &V) -> bool,
    A: Fn(&V) -> Option<Vec<V>>,
    M: Fn(Vec<V>) -> V,
    O: Fn(ArithOp, V, V) -> Option<V>,
    T: Fn(V) -> Option<V>,
    N: Fn(V) -> Option<V>,
>(
    fwd_chained_casual_models: &Vec<(IMdl<V>, bool)>,
    goal_requirements: &Vec<IMdl<V>>,
    system: &System<V, C>,
    eq: &E,
    as_vec: &A,
    make_vec: &M,
    arith: &O,
    to_entity_id: &T,
    to_number: &N,
) -> (r: (Vec<BoundModel<V, C>>, Vec<BoundModel<V, C>>))
    requires
        value_ops_sound(*eq, *as_vec, *make_vec),
        arith_decides(*arith),
        conv_decides(*to_entity_id),
        conv_decides(*to_number),
        forall|i: int|
            0 <= i < fwd_chained_casual_models@.len() && !(#[trigger] fwd_chained_casual_models@[i]).1
                ==> system.models@.contains_key(fwd_chained_casual_models@[i].0.model_id@),
    ensures
        r.0@.len() == plain_instances(fwd_chained_casual_models@).len(),
        forall|t: int|
            0 <= t < r.0@.len() ==> instantiated_as(
                plain_instances(fwd_chained_casual_models@)[t],
                Map::empty(),
                system.models@,
                #[trigger] r.0@[t],
                *make_vec,
                *arith,
                *to_entity_id,
                *to_number,
            ),
        exists|per: Seq<Seq<BoundModel<V, C>>>|
            #[trigger] forward_backward_with(
                fwd_chained_casual_models@,
                goal_requirements@,
                system.models@,
                r.1@,
                per,
                *eq,
                *as_vec,
                *make_vec,
                *arith,
                *to_entity_id,
                *to_number,
            ),
{
    let fwd = fwd_chained_casual_models;
    let goals = goal_requirements;
    let ghost plain_all = fwd@.filter(|p: (IMdl<V>, bool)| !p.1);
    let ghost mut per: Seq<Seq<BoundModel<V, C>>> = Seq::empty();
    let mut insatiable: Vec<BoundModel<V, C>> = Vec::new();
    let mut final_models: Vec<BoundModel<V, C>> = Vec::new();
    let mut i: usize = 0;
    while i < fwd.len()
        invariant
            i <= fwd.len(),
            value_ops_sound(*eq, *as_vec, *make_vec),
            arith_decides(*arith),
            conv_decides(*to_entity_id),
            conv_decides(*to_number),
            forall|k: int|
                0 <= k < fwd@.len() && !(#[trigger] fwd@[k]).1 ==> system.models@.contains_key(
                    fwd@[k].0.model_id@,
                ),
            insatiable@.len() == fwd@.take(i as int).filter(|p: (IMdl<V>, bool)| !p.1).len(),
            forall|t: int|
                0 <= t < insatiable@.len() ==> instantiated_as(
                    fwd@.take(i as int).filter(|p: (IMdl<V>, bool)| !p.1)[t].0,
                    Map::empty(),
                    system.models@,
                    #[trigger] insatiable@[t],
                    *make_vec,
                    *arith,
                    *to_entity_id,
                    *to_number,
                ),
            per.len() == i,
            fwd@ == fwd_chained_casual_models@,
            goals@ == goal_requirements@,
            forall|k: int|
                0 <= k < i ==> if (#[trigger] fwd@[k]).1 {
                    per[k].len() == 0
                } else {
                    exists|idx: Seq<int>|
                        merged_with_goals(
                            fwd@[k].0,
                            goals@,
                            per[k],
                            idx,
                            system.models@,
                            *eq,
                            *as_vec,
                            *make_vec,
                            *arith,
                            *to_entity_id,
                            *to_number,
                        )
                },
            final_models@ == Seq::new(i as nat, |k: int| per[k]).flatten_alt(),
        decreases fwd.len() - i,
    {
        let ghost prev_per = per;
        let ghost prev_flat = Seq::new(i as nat, |k: int| per[k]).flatten_alt();
        proof {
            reveal(Seq::filter);
            assert(fwd@.take(i + 1).drop_last() =~= fwd@.take(i as int));
        }
        let (fimdl, is_anti) = (&fwd[i].0, fwd[i].1);
        let ghost mut group: Seq<BoundModel<V, C>> = Seq::empty();
        if !is_anti {
            let ghost mut idx: Seq<int> = Seq::empty();
            let ghost start = final_models@;
            let mut j: usize = 0;
            while j < goals.len()
                invariant
                    j <= goals.len(),
                    value_ops_sound(*eq, *as_vec, *make_vec),
                    arith_decides(*arith),
                    conv_decides(*to_entity_id),
                    conv_decides(*to_number),
                    system.models@.contains_key(fimdl.model_id@),
                    final_models@ == start + group,
                    forall|t: int| 0 <= t < idx.len() ==> #[trigger] idx[t] < j,
                    merged_with_goals(
                        *fimdl,
                        goals@.take(j as int),
                        group,
                        idx,
                        system.models@,
                        *eq,
                        *as_vec,
                        *make_vec,
                        *arith,
                        *to_entity_id,
                        *to_number,
                    ),
                decreases goals.len() - j,
            {
                let ghost before_take = goals@.take(j as int);
                let ghost next_take = goals@.take(j + 1);
                assert(forall|k: int| 0 <= k < j ==> #[trigger] next_take[k] == before_take[k]);
                if compare_imdls(&goals[j], fimdl, true, true, eq, as_vec) {
                    let c1 = fimdl.clone();
                    let c2 = goals[j].clone();
                    let ghost g1 = c1;
                    let ghost g2 = c2;
                    let merged = c1.merge_with(c2, as_vec);
                    let ghost gm = merged;
                    let mut bm = merged.instantiate(
                        &StrMap::new(),
                        system,
                        make_vec,
                        arith,
                        to_entity_id,
                        to_number,
                    );
                    let ghost b0 = bm;
                    bm.compute_backward_bindings(make_vec, arith, to_entity_id, to_number);
                    bm.compute_forward_bindings(make_vec, arith, to_entity_id, to_number);
                    proof {
                        assert(merge_instance(
                            *fimdl,
                            goals@[j as int],
                            g1,
                            g2,
                            gm,
                            b0,
                            system.models@,
                            *as_vec,
                            *make_vec,
                            *arith,
                            *to_entity_id,
                            *to_number,
                        ));
                        assert(merged_goal_model(
                            *fimdl,
                            goals@[j as int],
                            bm,
                            system.models@,
                            *as_vec,
                            *make_vec,
                            *arith,
                            *to_entity_id,
                            *to_number,
                        ));
                    }
                    final_models.push(bm);
                    proof {
                        assert(before_take.push(goals@[j as int]) =~= next_take);
                        lemma_merged_add(
                            *fimdl,
                            before_take,
                            goals@[j as int],
                            group,
                            idx,
                            bm,
                            system.models@,
                            *eq,
                            *as_vec,
                            *make_vec,
                            *arith,
                            *to_entity_id,
                            *to_number,
                        );
                        idx = idx.push(j as int);
                        group = group.push(bm);
                        assert(final_models@ =~= start + group);
                    }
                } else {
                    proof {
                        assert(before_take.push(goals@[j as int]) =~= next_take);
                        lemma_merged_skip(
                            *fimdl,
                            before_take,
                            goals@[j as int],
                            group,
                            idx,
                            system.models@,
                            *eq,
                            *as_vec,
                            *make_vec,
                            *arith,
                            *to_entity_id,
                            *to_number,
                        );
                    }
                }
                j = j + 1;
            }
            assert(goals@.take(goals@.len() as int) =~= goals@);
            let inst = fimdl.instantiate(&StrMap::new(), system, make_vec, arith, to_entity_id, to_number);
            insatiable.push(inst);
        }
        proof {
            per = per.push(group);
            let next = Seq::new((i + 1) as nat, |k: int| per[k]);
            assert(next.drop_last() =~= Seq::new(i as nat, |k: int| prev_per[k]));
            assert(Seq::new(i as nat, |k: int| prev_per[k]) =~= Seq::new(i as nat, |k: int| per[k]));
            assert(next.flatten_alt() == next.drop_last().flatten_alt() + next.last());
            assert forall|k: int| 0 <= k < i + 1 implies (if (#[trigger] fwd@[k]).1 {
                per[k].len() == 0
            } else {
                exists|idx: Seq<int>|
                    merged_with_goals(
                        fwd@[k].0,
                        goals@,
                        per[k],
                        idx,
                        system.models@,
                        *eq,
                        *as_vec,
                        *make_vec,
                        *arith,
                        *to_entity_id,
                        *to_number,
                    )
            }) by {
                if k < i {
                    assert(per[k] == prev_per[k]);
                }
            }
        }
        i = i + 1;
    }
    let ghost final_models_view = final_models@;
    proof {
        assert(fwd@.take(fwd@.len() as int) =~= fwd@);
        assert(forward_backward_with(
            fwd_chained_casual_models@,
            goal_requirements@,
            system.models@,
            final_models@,
            per,
            *eq,
            *as_vec,
            *make_vec,
            *arith,
            *to_entity_id,
            *to_number,
        ));
    }
    let result = (insatiable, final_models);
    proof {
        assert(result.1@ == final_models_view);
        assert(forward_backward_with(
            fwd_chained_casual_models@,
            goal_requirements@,
            system.models@,
            result.1@,
            per,
            *eq,
            *as_vec,
            *make_vec,
            *arith,
            *to_entity_id,
            *to_number,
        ));
    }
    result
}


/// A node of the tree that forward chaining grows: the command taken, the
/// nodes reached after it, whether a goal state lies below it, and the
/// fewest commands from it to a goal state.
pub struct ForwardChainNode<V> {
    pub command: RuntimeCommand<V>,
    pub children: Vec<ForwardChainNode<V>>,
    pub is_in_goal_path: bool,
    pub min_goal_depth: u64,
}

/// Node `i` is the one to follow among `nodes`: it lies on a goal path,
/// no goal-path node has a smaller depth to the goal, and every earlier
/// goal-path node has a larger one.
pub open spec fn best_goal_node<V>(nodes: Seq<ForwardChainNode<V>>, i: int) -> bool {
    &&& 0 <= i < nodes.len()
    &&& nodes[i].is_in_goal_path
    &&& forall|j: int|
        0 <= j < nodes.len() && #[trigger] nodes[j].is_in_goal_path ==> nodes[i].min_goal_depth
            <= nodes[j].min_goal_depth
    &&& forall|j: int|
        0 <= j < i && #[trigger] nodes[j].is_in_goal_path ==> nodes[i].min_goal_depth
            < nodes[j].min_goal_depth
}

/// The commands along the goal path that starts among `nodes`: the best
/// node's command, then the path below it; nothing where no node lies on a
/// goal path.
pub open spec fn goal_path<V>(nodes: Seq<ForwardChainNode<V>>) -> Seq<RuntimeCommand<V>>
    decreases nodes,
{
    if exists|i: int| best_goal_node(nodes, i) {
        let i = choose|i: int| best_goal_node(nodes, i);
        proof {
            assert(decreases_to!(nodes => nodes[i]));
            assert(decreases_to!(nodes[i] => nodes[i].children));
            assert(decreases_to!(nodes[i].children => nodes[i].children@));
        }
        seq![nodes[i].command] + goal_path(nodes[i].children@)
    } else {
        Seq::empty()
    }
}

/// At most one node is the best one.
proof fn lemma_best_goal_node_unique<V>(nodes: Seq<ForwardChainNode<V>>, i: int, k: int)
    requires
        best_goal_node(nodes, i),
        best_goal_node(nodes, k),
    ensures
        i == k,
{
    if i < k {
        assert(nodes[i].is_in_goal_path);
    } else if k < i {
        assert(nodes[k].is_in_goal_path);
    }
}

/// Where some node lies on a goal path, one of them is the best.
proof fn lemma_best_goal_node_exists<V>(nodes: Seq<ForwardChainNode<V>>, g: int)
    requires
        0 <= g < nodes.len(),
        nodes[g].is_in_goal_path,
    ensures
        exists|i: int| best_goal_node(nodes, i),
    decreases nodes.len(),
{
    let n = nodes.len() - 1;
    let m = nodes.drop_last();
    if exists|h: int| 0 <= h < n && #[trigger] nodes[h].is_in_goal_path {
        let h = choose|h: int| 0 <= h < n && #[trigger] nodes[h].is_in_goal_path;
        assert(m[h] == nodes[h]);
        lemma_best_goal_node_exists(m, h);
        let j = choose|j: int| best_goal_node(m, j);
        assert forall|q: int| 0 <= q < n implies #[trigger] nodes[q] == m[q] by {}
        if nodes[n].is_in_goal_path && nodes[n].min_goal_depth < nodes[j].min_goal_depth {
            assert(best_goal_node(nodes, n));
        } else {
            assert(best_goal_node(nodes, j));
        }
    } else {
        assert(g == n);
        assert(best_goal_node(nodes, n));
    }
}

/// The path of a forward chaining tree is empty exactly when none of its
/// top nodes lies on a goal path; otherwise it starts with the command of
/// the goal-path node with the fewest commands to the goal, the first such
/// node on a tie.
pub proof fn lemma_goal_path_starts_at_best_node<V>(nodes: Seq<ForwardChainNode<V>>)
    ensures
        goal_path(nodes).len() == 0 <==> forall|i: int|
            0 <= i < nodes.len() ==> !(#[trigger] nodes[i].is_in_goal_path),
        forall|i: int|
            best_goal_node(nodes, i) ==> goal_path(nodes).len() > 0 && goal_path(nodes)[0]
                == nodes[i].command,
{
    if exists|g: int| 0 <= g < nodes.len() && #[trigger] nodes[g].is_in_goal_path {
        let g = choose|g: int| 0 <= g < nodes.len() && #[trigger] nodes[g].is_in_goal_path;
        lemma_best_goal_node_exists(nodes, g);
        let k = choose|k: int| best_goal_node(nodes, k);
        assert(goal_path(nodes) == seq![nodes[k].command] + goal_path(nodes[k].children@));
        assert forall|i: int| best_goal_node(nodes, i) implies goal_path(nodes).len() > 0
            && goal_path(nodes)[0] == nodes[i].command by {
            lemma_best_goal_node_unique(nodes, i, k);
        }
    } else {
        assert(!exists|k: int| best_goal_node(nodes, k)) by {
            if exists|k: int| best_goal_node(nodes, k) {
                let k = choose|k: int| best_goal_node(nodes, k);
                assert(nodes[k].is_in_goal_path);
            }
        }
    }
}

/// Follows the goal path through the forward chaining tree and returns its
/// commands: at each level the goal-path node with the fewest commands to
/// the goal, the first of them on a tie.
pub fn commit_to_path<V>(forward_chain_result: Vec<ForwardChainNode<V>>) -> (r: Vec<RuntimeCommand<V>>)
    ensures
        r@ == goal_path(forward_chain_result@),
    decreases forward_chain_result,
{
    let mut nodes = forward_chain_result;
    let mut best: Option<usize> = None;
    let mut i: usize = 0;
    while i < nodes.len()
        invariant
            i <= nodes@.len(),
            nodes@ == forward_chain_result@,
            match best {
                Some(b) => {
                    &&& b < i
                    &&& nodes@[b as int].is_in_goal_path
                    &&& forall|j: int|
                        0 <= j < i && #[trigger] nodes@[j].is_in_goal_path
                            ==> nodes@[b as int].min_goal_depth <= nodes@[j].min_goal_depth
                    &&& forall|j: int|
                        0 <= j < b && #[trigger] nodes@[j].is_in_goal_path
                            ==> nodes@[b as int].min_goal_depth < nodes@[j].min_goal_depth
                },
                None => forall|j: int| 0 <= j < i ==> !(#[trigger] nodes@[j].is_in_goal_path),
            },
        decreases nodes@.len() - i,
    {
        if nodes[i].is_in_goal_path {
            match best {
                Some(b) => {
                    if nodes[i].min_goal_depth < nodes[b].min_goal_depth {
                        best = Some(i);
                    }
                },
                None => {
                    best = Some(i);
                },
            }
        }
        i = i + 1;
    }
    match best {
        None => {
            proof {
                assert(!exists|k: int| best_goal_node(nodes@, k)) by {
                    if exists|k: int| best_goal_node(nodes@, k) {
                        let k = choose|k: int| best_goal_node(nodes@, k);
                        assert(nodes@[k].is_in_goal_path);
                    }
                }
            }
            Vec::new()
        },
        Some(b) => {
            proof {
                assert(best_goal_node(nodes@, b as int));
                let k = choose|k: int| best_goal_node(nodes@, k);
                lemma_best_goal_node_unique(nodes@, b as int, k);
            }
            let ghost whole = nodes@;
            let node = nodes.remove(b);
            assert(node == whole[b as int]);
            let ForwardChainNode { command, children, is_in_goal_path: _, min_goal_depth: _ } = node;
            proof {
                assert(decreases_to!(forward_chain_result => forward_chain_result@));
                assert(decreases_to!(forward_chain_result@ => forward_chain_result@[b as int]));
                assert(decreases_to!(forward_chain_result@[b as int] => forward_chain_result@[b as int].children));
            }
            let mut rest = commit_to_path(children);
            let mut path: Vec<RuntimeCommand<V>> = Vec::new();
            path.push(command);
            path.append(&mut rest);
            path
        },
    }
}



/// The instances of the composite states, in the order of the state's
/// entries and, within one, in the order of its instances.
pub open spec fn state_instance_list<V: Clone>(entries: Seq<(Seq<char>, Vec<BoundCst<V>>)>) -> Seq<BoundCst<V>>
    decreases entries.len(),
{
    if entries.len() == 0 {
        Seq::empty()
    } else {
        state_instance_list(entries.drop_last()) + entries.last().1@
    }
}

/// `icst` is the instantiation that the instance `bc` gives (see
/// `BoundCst::icst_for_cst`).
pub open spec fn icst_of_instance<V: Clone>(bc: BoundCst<V>, icst: ICst<V>) -> bool {
    &&& icst.cst_id == bc.cst.cst_id
    &&& icst.params@.len() == cst_binding_params(bc.cst).len()
    &&& forall|i: int|
        #![trigger icst.params@[i]]
        0 <= i < icst.params@.len() ==> {
            let b = cst_binding_params(bc.cst)[i];
            if bc.bindings@.contains_key(b) {
                icst.params@[i] is Value && cloned(bc.bindings@[b], icst.params@[i]->Value_0)
            } else {
                icst.params@[i] is Any
            }
        }
}

/// The input that an instance gives a requirement model: its
/// instantiation, at any time.
pub open spec fn instance_input<V: Clone>(bc: BoundCst<V>, input: Fact<MdlLeftValue<V>>) -> bool {
    &&& input.pattern is ICst
    &&& icst_of_instance(bc, input.pattern->ICst_0)
    &&& input.time_range.from == TimePatternValue::Any
    &&& input.time_range.to == TimePatternValue::Any
}

/// The instantiated models among the deductions `outs`, in order.
pub open spec fn deduced_imdls<V: Clone>(outs: Seq<Option<Fact<MdlRightValue<V>>>>) -> Seq<IMdl<V>>
    decreases outs.len(),
{
    if outs.len() == 0 {
        Seq::empty()
    } else {
        let rest = deduced_imdls(outs.drop_last());
        match outs.last() {
            Some(f) => match f.pattern {
                MdlRightValue::IMdl(imdl) => rest.push(imdl),
                MdlRightValue::MkVal(_) => rest,
            },
            None => rest,
        }
    }
}

/// The instantiated models that the rows of deductions give, row after row.
pub open spec fn deduced_imdl_rows<V: Clone>(rows: Seq<Seq<Option<Fact<MdlRightValue<V>>>>>) -> Seq<IMdl<V>>
    decreases rows.len(),
{
    if rows.len() == 0 {
        Seq::empty()
    } else {
        deduced_imdl_rows(rows.drop_last()) + deduced_imdls(rows.last())
    }
}

/// `out` holds what `bm`, a bound copy with no bindings of the copy `copy`
/// of `model`, deduces from each instance in `list`, the input of each
/// being the matching entry of `ins`, with no anti-requirements.
pub open spec fn requirement_row<
    V: Clone,
    C: Clone,
    E: Fn(&V, &V) -> bool,
    A: Fn(&V) -> Option<Vec<V>>,
    M: Fn(Vec<V>) -> V,
    O: Fn(ArithOp, V, V) -> Option<V>,
    T: Fn(V) -> Option<V>,
    N: Fn(V) -> Option<V>,
    F: Fn(&V) -> Option<String>,
>(
    model: Mdl<V, C>,
    list: Seq<BoundCst<V>>,
    copy: Mdl<V, C>,
    bm: BoundModel<V, C>,
    ins: Seq<Fact<MdlLeftValue<V>>>,
    out: Seq<Option<Fact<MdlRightValue<V>>>>,
    eq: E,
    as_vec: A,
    make_vec: M,
    arith: O,
    to_entity_id: T,
    to_number: N,
    entity_id_of: F,
) -> bool {
    &&& bm.bindings@ == Map::<Seq<char>, V>::empty()
    &&& mdl_cloned(model, copy)
    &&& mdl_cloned(copy, bm.model)
    &&& ins.len() == list.len()
    &&& out.len() == list.len()
    &&& forall|k: int|
        #![trigger out[k]]
        #![trigger ins[k]]
        0 <= k < list.len() ==> instance_input(list[k], ins[k]) && deduced(
            bm,
            ins[k],
            Seq::empty(),
            out[k],
            eq,
            as_vec,
            make_vec,
            arith,
            to_entity_id,
            to_number,
            entity_id_of,
        )
}

/// Row `t` of `outs` is what the copy `bms[t]` of requirement model `t`
/// deduces from the instances in `list` (see `requirement_row`).
pub open spec fn requirement_rows<
    V: Clone,
    C: Clone,
    E: Fn(&V, &V) -> bool,
    A: Fn(&V) -> Option<Vec<V>>,
    M: Fn(Vec<V>) -> V,
    O: Fn(ArithOp, V, V) -> Option<V>,
    T: Fn(V) -> Option<V>,
    N: Fn(V) -> Option<V>,
    F: Fn(&V) -> Option<String>,
>(
    models: Seq<Mdl<V, C>>,
    list: Seq<BoundCst<V>>,
    copies: Seq<Mdl<V, C>>,
    bms: Seq<BoundModel<V, C>>,
    inputs: Seq<Seq<Fact<MdlLeftValue<V>>>>,
    outs: Seq<Seq<Option<Fact<MdlRightValue<V>>>>>,
    eq: E,
    as_vec: A,
    make_vec: M,
    arith: O,
    to_entity_id: T,
    to_number: N,
    entity_id_of: F,
) -> bool {
    &&& bms.len() == outs.len()
    &&& copies.len() == outs.len()
    &&& inputs.len() == outs.len()
    &&& outs.len() <= models.len()
    &&& forall|t: int|
        0 <= t < outs.len() ==> #[trigger] requirement_row(
            models[t],
            list,
            copies[t],
            bms[t],
            inputs[t],
            outs[t],
            eq,
            as_vec,
            make_vec,
            arith,
            to_entity_id,
            to_number,
            entity_id_of,
        )
}

/// The instantiated models that the system's requirement models deduce
/// from the instances of the composite states in `state`: for each
/// requirement model in order, what it gives from each instance in turn.
pub fn compute_instantiate_casual_models<
    V: Clone,
    C: Clone,
    E: Fn(&V, &V) -> bool,
    A: Fn(&V) -> Option<Vec<V>>,
    M: Fn(Vec<V>) -> V,
    O: Fn(ArithOp, V, V) -> Option<V>,
    T: Fn(V) -> Option<V>,
    N: Fn(V) -> Option<V>,
    F: Fn(&V) -> Option<String>,
>(
    state: &SystemState<V>,
    system: &System<V, C>,
    eq: &E,
    as_vec: &A,
    make_vec: &M,
    arith: &O,
    to_entity_id: &T,
    to_number: &N,
    entity_id_of: &F,
) -> (r: Vec<IMdl<V>>)
    requires
        value_ops_sound(*eq, *as_vec, *make_vec),
        arith_decides(*arith),
        conv_decides(*to_entity_id),
        conv_decides(*to_number),
        forall|v: &V| entity_id_of.requires((v,)),
    ensures
        exists|
            copies: Seq<Mdl<V, C>>,
            bms: Seq<BoundModel<V, C>>,
            inputs: Seq<Seq<Fact<MdlLeftValue<V>>>>,
            outs: Seq<Seq<Option<Fact<MdlRightValue<V>>>>>,
        |
            {
                &&& #[trigger] requirement_rows(
                    req_models_of(system.models),
                    state_instance_list(state.instansiated_csts.entries_view()),
                    copies,
                    bms,
                    inputs,
                    outs,
                    *eq,
                    *as_vec,
                    *make_vec,
                    *arith,
                    *to_entity_id,
                    *to_number,
                    *entity_id_of,
                )
                &&& outs.len() == req_models_of(system.models).len()
                &&& r@ == deduced_imdl_rows(outs)
            },
{
    let ghost entries = state.instansiated_csts.entries_view();
    let mut list: Vec<&BoundCst<V>> = Vec::new();
    let n = state.instansiated_csts.len();
    let mut i: usize = 0;
    while i < n
        invariant
            i <= n,
            n == entries.len(),
            entries == state.instansiated_csts.entries_view(),
            list@.map_values(|b: &BoundCst<V>| *b) == state_instance_list(entries.take(i as int)),
        decreases n - i,
    {
        let (_, instances) = state.instansiated_csts.entry_at(i);
        let ghost before = list@.map_values(|b: &BoundCst<V>| *b);
        let mut j: usize = 0;
        while j < instances.len()
            invariant
                j <= instances@.len(),
                list@.map_values(|b: &BoundCst<V>| *b) == before + instances@.take(j as int),
            decreases instances@.len() - j,
        {
            let ghost prev = list@;
            list.push(&instances[j]);
            assert(list@.map_values(|b: &BoundCst<V>| *b) =~= prev.map_values(|b: &BoundCst<V>| *b).push(instances@[j as int]));
            assert(instances@.take(j as int + 1) =~= instances@.take(j as int).push(instances@[j as int]));
            j = j + 1;
        }
        proof {
            assert(entries.take(i as int + 1).drop_last() =~= entries.take(i as int));
            assert(instances@.take(j as int) =~= instances@);
        }
        i = i + 1;
    }
    proof {
        assert(entries.take(n as int) =~= entries);
    }
    let ghost flat = list@.map_values(|b: &BoundCst<V>| *b);
    let models = all_req_models(system);
    let ghost wanted = req_models_of(system.models);
    let no_anti: Vec<&IMdl<V>> = Vec::new();
    let mut r: Vec<IMdl<V>> = Vec::new();
    let ghost mut copies: Seq<Mdl<V, C>> = Seq::empty();
    let ghost mut bms: Seq<BoundModel<V, C>> = Seq::empty();
    let ghost mut inputs: Seq<Seq<Fact<MdlLeftValue<V>>>> = Seq::empty();
    let ghost mut outs: Seq<Seq<Option<Fact<MdlRightValue<V>>>>> = Seq::empty();
    let mut t: usize = 0;
    while t < models.len()
        invariant
            t <= models@.len(),
            flat == list@.map_values(|b: &BoundCst<V>| *b),
            flat == state_instance_list(state.instansiated_csts.entries_view()),
            models@.len() == wanted.len(),
            forall|q: int| 0 <= q < models@.len() ==> mdl_cloned(wanted[q], #[trigger] models@[q]),
            no_anti@ == Seq::<&IMdl<V>>::empty(),
            value_ops_sound(*eq, *as_vec, *make_vec),
            arith_decides(*arith),
            conv_decides(*to_entity_id),
            conv_decides(*to_number),
            forall|v: &V| entity_id_of.requires((v,)),
            outs.len() == t,
            requirement_rows(
                wanted,
                flat,
                copies,
                bms,
                inputs,
                outs,
                *eq,
                *as_vec,
                *make_vec,
                *arith,
                *to_entity_id,
                *to_number,
                *entity_id_of,
            ),
            r@ == deduced_imdl_rows(outs),
        decreases models@.len() - t,
    {
        let bm = models[t].as_bound_model();
        let ghost mut row_inputs: Seq<Fact<MdlLeftValue<V>>> = Seq::empty();
        let ghost mut row: Seq<Option<Fact<MdlRightValue<V>>>> = Seq::empty();
        let ghost start = r@;
        let mut k: usize = 0;
        while k < list.len()
            invariant
                k <= list@.len(),
                flat == list@.map_values(|b: &BoundCst<V>| *b),
                no_anti@ == Seq::<&IMdl<V>>::empty(),
                value_ops_sound(*eq, *as_vec, *make_vec),
                arith_decides(*arith),
                conv_decides(*to_entity_id),
                conv_decides(*to_number),
                forall|v: &V| entity_id_of.requires((v,)),
                row.len() == k,
                row_inputs.len() == k,
                forall|q: int|
                    #![trigger row[q]]
                    #![trigger row_inputs[q]]
                    0 <= q < k ==> instance_input(flat[q], row_inputs[q]) && deduced(
                        bm,
                        row_inputs[q],
                        Seq::empty(),
                        row[q],
                        *eq,
                        *as_vec,
                        *make_vec,
                        *arith,
                        *to_entity_id,
                        *to_number,
                        *entity_id_of,
                    ),
                r@ == start + deduced_imdls(row),
            decreases list@.len() - k,
        {
            let icst = list[k].icst_for_cst();
            let input = Fact { pattern: MdlLeftValue::ICst(icst), time_range: TimePatternRange::wildcard() };
            let out = bm.deduce(&input, &no_anti, eq, as_vec, make_vec, arith, to_entity_id, to_number, entity_id_of);
            let ghost row_before = row;
            let ghost inputs_before = row_inputs;
            proof {
                assert(no_anti@ =~= Seq::<&IMdl<V>>::empty());
                assert(flat[k as int] == *list@[k as int]);
                assert(instance_input(flat[k as int], input));
                row_inputs = row_inputs.push(input);
                row = row.push(out);
                assert(row.drop_last() =~= row_before);
                assert forall|q: int|
                    #![trigger row[q]]
                    #![trigger row_inputs[q]]
                    0 <= q < k + 1 implies instance_input(flat[q], row_inputs[q]) && deduced(
                    bm,
                    row_inputs[q],
                    Seq::empty(),
                    row[q],
                    *eq,
                    *as_vec,
                    *make_vec,
                    *arith,
                    *to_entity_id,
                    *to_number,
                    *entity_id_of,
                ) by {
                    if q < k {
                        assert(row[q] == row_before[q]);
                        assert(row_inputs[q] == inputs_before[q]);
                    } else {
                        assert(row[q] == out);
                        assert(row_inputs[q] == input);
                    }
                }
            }
            let ghost old_row = row.drop_last();
            let ghost gout = out;
            proof {
                assert(old_row == row_before);
                assert(r@ == start + deduced_imdls(old_row));
                assert(row.last() == gout);
                assert(row.drop_last() == old_row);
            }
            match out {
                Some(f) => match f.pattern {
                    MdlRightValue::IMdl(imdl) => {
                        r.push(imdl);
                        proof {
                            assert(deduced_imdls(row) == deduced_imdls(old_row).push(imdl));
                            assert(r@ =~= start + deduced_imdls(row));
                        }
                    },
                    MdlRightValue::MkVal(_) => {
                        proof {
                            assert(deduced_imdls(row) == deduced_imdls(old_row));
                        }
                    },
                },
                None => {
                    proof {
                        assert(deduced_imdls(row) == deduced_imdls(old_row));
                    }
                },
            }
            k = k + 1;
        }
        proof {
            let old_outs = outs;
            let old_bms = bms;
            let old_copies = copies;
            let old_inputs = inputs;
            copies = copies.push(models@[t as int]);
            bms = bms.push(bm);
            inputs = inputs.push(row_inputs);
            outs = outs.push(row);
            assert(outs.drop_last() =~= old_outs);
            assert(r@ =~= deduced_imdl_rows(outs));
            assert(mdl_cloned(wanted[t as int], models@[t as int]));
            assert(requirement_row(
                wanted[t as int],
                flat,
                copies[t as int],
                bms[t as int],
                inputs[t as int],
                outs[t as int],
                *eq,
                *as_vec,
                *make_vec,
                *arith,
                *to_entity_id,
                *to_number,
                *entity_id_of,
            ));
            assert forall|q: int| 0 <= q < outs.len() implies #[trigger] requirement_row(
                wanted[q],
                flat,
                copies[q],
                bms[q],
                inputs[q],
                outs[q],
                *eq,
                *as_vec,
                *make_vec,
                *arith,
                *to_entity_id,
                *to_number,
                *entity_id_of,
            ) by {
                if q < t {
                    assert(outs[q] == old_outs[q]);
                    assert(bms[q] == old_bms[q]);
                    assert(copies[q] == old_copies[q]);
                    assert(inputs[q] == old_inputs[q]);
                }
            }
        }
        t = t + 1;
    }
    r
}

} // verus!
