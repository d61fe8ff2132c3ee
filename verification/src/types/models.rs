//! Models: a left-hand pattern that, when it holds, brings about a
//! right-hand one, with functions that compute bindings on the way. Here,
//! their shapes and the bindings that parameterise them.

use vstd::prelude::*;
use crate::runtime::pattern_matching::{
    as_vec_reads, bound_icst_params, clones_equal, combine_pattern_bindings, compare_imdls,
    items_combined, left_match_outcome, make_vec_decides, patterns_compare_answer,
    value_ops_sound, PatternMatchResult,
};
use crate::str_map::StrMap;
use crate::strings::{lemma_unique_seq, unique_seq, unique_strings};
use crate::types::cst::ICst;
use crate::types::functions::{
    arith_decides, conv_decides, evaluation, function_bindings, function_cloned, ArithOp, Function,
};
use crate::types::pattern::{
    bindings_in_pattern, clone_items, filled_copy, filled_copy_items, item_filled_copy, items_cloned,
    items_filled_copy, pattern_bindings, strings_view, PatternItem,
};
use crate::types::{
    command_bindings, entity_filled, mk_val_bindings, mk_val_cloned, Command, EntityPatternValue, Fact,
    MkVal,
};

verus! {

/// An instantiated model: the model's id, a pattern for its parameters and
/// values for bindings of its forward guards.
pub struct IMdl<V: Clone> {
    pub model_id: String,
    pub params: Vec<PatternItem<V>>,
    pub fwd_guard_bindings: StrMap<V>,
}

/// `b` copies `a`: the same model, the parameters and the guard values
/// cloned.
pub open spec fn imdl_cloned<V: Clone>(a: IMdl<V>, b: IMdl<V>) -> bool {
    &&& b.model_id == a.model_id
    &&& items_cloned(a.params@, b.params@)
    &&& b.fwd_guard_bindings.entries_view().len() == a.fwd_guard_bindings.entries_view().len()
    &&& forall|i: int|
        0 <= i < a.fwd_guard_bindings.entries_view().len() ==> {
            &&& (#[trigger] b.fwd_guard_bindings.entries_view()[i]).0
                == a.fwd_guard_bindings.entries_view()[i].0
            &&& cloned(
                a.fwd_guard_bindings.entries_view()[i].1,
                b.fwd_guard_bindings.entries_view()[i].1,
            )
        }
}

impl<V: Clone> Clone for IMdl<V> {
    fn clone(&self) -> (r: Self)
        ensures
            imdl_cloned(*self, r),
    {
        IMdl {
            model_id: self.model_id.clone(),
            params: clone_items(&self.params),
            fwd_guard_bindings: self.fwd_guard_bindings.clone(),
        }
    }
}

/// `b` is `a` with its parameters copied and the bindings that `m` holds
/// filled in; the guard values are cloned.
pub open spec fn imdl_filled<V: Clone>(a: IMdl<V>, b: IMdl<V>, m: Map<Seq<char>, V>) -> bool {
    &&& b.model_id == a.model_id
    &&& items_filled_copy(a.params@, b.params@, m)
    &&& b.fwd_guard_bindings.entries_view().len() == a.fwd_guard_bindings.entries_view().len()
    &&& forall|i: int|
        0 <= i < a.fwd_guard_bindings.entries_view().len() ==> {
            &&& (#[trigger] b.fwd_guard_bindings.entries_view()[i]).0
                == a.fwd_guard_bindings.entries_view()[i].0
            &&& cloned(
                a.fwd_guard_bindings.entries_view()[i].1,
                b.fwd_guard_bindings.entries_view()[i].1,
            )
        }
}

/// `b` is the variable pattern `a` with the bindings that `m` holds filled
/// in: the entity as `entity_filled` says, a copy of the value.
pub open spec fn mk_val_filled<V: Clone, F: Fn(&V) -> Option<String>>(
    a: MkVal<V>,
    b: MkVal<V>,
    m: Map<Seq<char>, V>,
    entity_id_of: F,
) -> bool {
    &&& entity_filled(a.entity_id, b.entity_id, m, entity_id_of)
    &&& b.var_name == a.var_name
    &&& item_filled_copy(a.value, b.value, m)
    &&& b.assumption == a.assumption
}

/// The variable pattern with the bindings that `bindings` holds filled in.
pub(crate) fn filled_mk_val<V: Clone, F: Fn(&V) -> Option<String>>(
    mk_val: &MkVal<V>,
    bindings: &StrMap<V>,
    entity_id_of: &F,
) -> (r: MkVal<V>)
    requires
        forall|v: &V| entity_id_of.requires((v,)),
    ensures
        mk_val_filled(*mk_val, r, bindings@, *entity_id_of),
{
    let mut entity_id = mk_val.entity_id.clone();
    entity_id.insert_binding_value(bindings, entity_id_of);
    MkVal {
        entity_id,
        var_name: mk_val.var_name.clone(),
        value: filled_copy(&mk_val.value, bindings),
        assumption: mk_val.assumption,
    }
}

impl<V: Clone> IMdl<V> {
    /// A copy with the bindings that `bindings` holds filled into the
    /// parameters.
    pub fn filled_in(&self, bindings: &StrMap<V>) -> (r: IMdl<V>)
        ensures
            imdl_filled(*self, r, bindings@),
    {
        IMdl {
            model_id: self.model_id.clone(),
            params: filled_copy_items(&self.params, bindings),
            fwd_guard_bindings: self.fwd_guard_bindings.clone(),
        }
    }

    /// This instantiation with the bound values of another combined into
    /// its parameters, its own values kept where both are bound, and the
    /// other's forward guard bindings added over its own.
    pub fn merge_with<A: Fn(&V) -> Option<Vec<V>>>(self, imdl: IMdl<V>, as_vec: &A) -> (r: IMdl<V>)
        requires
            as_vec_reads(*as_vec),
        ensures
            r.model_id == self.model_id,
            items_combined(self.params@, imdl.params@, r.params@, *as_vec),
            r.fwd_guard_bindings@ == self.fwd_guard_bindings@.union_prefer_right(
                imdl.fwd_guard_bindings@,
            ),
    {
        let IMdl { model_id, params, fwd_guard_bindings } = self;
        let IMdl { model_id: _, params: other_params, fwd_guard_bindings: other_guards } = imdl;
        let params = combine_pattern_bindings(params, other_params, as_vec);
        let mut fwd_guard_bindings = fwd_guard_bindings;
        fwd_guard_bindings.extend(other_guards);
        IMdl { model_id, params, fwd_guard_bindings }
    }

    pub fn new(model_id: String, params: Vec<PatternItem<V>>) -> (m: IMdl<V>)
        ensures
            m.model_id == model_id,
            m.params == params,
            m.fwd_guard_bindings@ == Map::<Seq<char>, V>::empty(),
    {
        IMdl { model_id, params, fwd_guard_bindings: StrMap::new() }
    }

    pub fn with_fwd_guards(
        model_id: String,
        params: Vec<PatternItem<V>>,
        fwd_guard_params: StrMap<V>,
    ) -> (m: IMdl<V>)
        ensures
            m.model_id == model_id,
            m.params == params,
            m.fwd_guard_bindings == fwd_guard_params,
    {
        IMdl { model_id, params, fwd_guard_bindings: fwd_guard_params }
    }
}

/// The left-hand side of a model.
pub enum MdlLeftValue<V: Clone> {
    ICst(ICst<V>),
    IMdl(IMdl<V>),
    Command(Command<V>),
    MkVal(MkVal<V>),
}

impl<V: Clone> Clone for MdlLeftValue<V> {
    fn clone(&self) -> (r: Self)
        ensures
            match (*self, r) {
                (MdlLeftValue::ICst(a), MdlLeftValue::ICst(b)) => b.cst_id == a.cst_id
                    && items_cloned(a.params@, b.params@),
                (MdlLeftValue::IMdl(a), MdlLeftValue::IMdl(b)) => imdl_cloned(a, b),
                (MdlLeftValue::Command(a), MdlLeftValue::Command(b)) => {
                    &&& b.name == a.name
                    &&& b.entity_id == a.entity_id
                    &&& items_cloned(a.params@, b.params@)
                },
                (MdlLeftValue::MkVal(a), MdlLeftValue::MkVal(b)) => mk_val_cloned(a, b),
                _ => false,
            },
    {
        match self {
            MdlLeftValue::ICst(icst) => MdlLeftValue::ICst(icst.clone()),
            MdlLeftValue::IMdl(imdl) => MdlLeftValue::IMdl(imdl.clone()),
            MdlLeftValue::Command(cmd) => MdlLeftValue::Command(cmd.clone()),
            MdlLeftValue::MkVal(mk_val) => MdlLeftValue::MkVal(mk_val.clone()),
        }
    }
}

/// `r` is the left-hand side `a` with the bindings `m` filled in: into the
/// parameters, the value, and a bound entity, as `entity_filled` says.
pub open spec fn left_filled<V: Clone, F: Fn(&V) -> Option<String>>(
    a: MdlLeftValue<V>,
    r: MdlLeftValue<V>,
    m: Map<Seq<char>, V>,
    entity_id_of: F,
) -> bool {
    match (a, r) {
        (MdlLeftValue::ICst(x), MdlLeftValue::ICst(y)) => y.cst_id == x.cst_id && items_filled_copy(
            x.params@,
            y.params@,
            m,
        ),
        (MdlLeftValue::IMdl(x), MdlLeftValue::IMdl(y)) => imdl_filled(x, y, m),
        (MdlLeftValue::Command(x), MdlLeftValue::Command(y)) => {
            &&& y.name == x.name
            &&& entity_filled(x.entity_id, y.entity_id, m, entity_id_of)
            &&& items_filled_copy(x.params@, y.params@, m)
        },
        (MdlLeftValue::MkVal(x), MdlLeftValue::MkVal(y)) => mk_val_filled(x, y, m, entity_id_of),
        _ => false,
    }
}

impl<V: Clone> MdlLeftValue<V> {
    /// A copy with the bindings that `bindings` holds filled in: into the
    /// parameters, the value, and a bound entity, which becomes the entity
    /// that `entity_id_of` reads from its value, if it reads one.
    pub fn filled_in<F: Fn(&V) -> Option<String>>(&self, bindings: &StrMap<V>, entity_id_of: F) -> (r:
        MdlLeftValue<V>)
        requires
            forall|v: &V| entity_id_of.requires((v,)),
        ensures
            left_filled(*self, r, bindings@, entity_id_of),
    {
        match self {
            MdlLeftValue::ICst(icst) => MdlLeftValue::ICst(
                ICst { cst_id: icst.cst_id.clone(), params: filled_copy_items(&icst.params, bindings) },
            ),
            MdlLeftValue::Command(command) => {
                let mut entity_id = command.entity_id.clone();
                entity_id.insert_binding_value(bindings, &entity_id_of);
                MdlLeftValue::Command(
                    Command {
                        name: command.name.clone(),
                        entity_id,
                        params: filled_copy_items(&command.params, bindings),
                    },
                )
            },
            MdlLeftValue::MkVal(mk_val) => MdlLeftValue::MkVal(
                filled_mk_val(mk_val, bindings, &entity_id_of),
            ),
            MdlLeftValue::IMdl(imdl) => MdlLeftValue::IMdl(imdl.filled_in(bindings)),
        }
    }

    pub fn as_icst(&self) -> (r: &ICst<V>)
        requires
            self is ICst,
        ensures
            *r == self->ICst_0,
    {
        match self {
            MdlLeftValue::ICst(icst) => icst,
            _ => vstd::pervasive::unreached(),
        }
    }

    pub fn as_command(&self) -> (r: &Command<V>)
        requires
            self is Command,
        ensures
            *r == self->Command_0,
    {
        match self {
            MdlLeftValue::Command(cmd) => cmd,
            _ => vstd::pervasive::unreached(),
        }
    }

    pub fn as_mk_val(&self) -> (r: &MkVal<V>)
        requires
            self is MkVal,
        ensures
            *r == self->MkVal_0,
    {
        match self {
            MdlLeftValue::MkVal(mk_val) => mk_val,
            _ => vstd::pervasive::unreached(),
        }
    }
}

/// The right-hand side of a model.
pub enum MdlRightValue<V: Clone> {
    IMdl(IMdl<V>),
    MkVal(MkVal<V>),
}

impl<V: Clone> Clone for MdlRightValue<V> {
    fn clone(&self) -> (r: Self)
        ensures
            match (*self, r) {
                (MdlRightValue::IMdl(a), MdlRightValue::IMdl(b)) => imdl_cloned(a, b),
                (MdlRightValue::MkVal(a), MdlRightValue::MkVal(b)) => mk_val_cloned(a, b),
                _ => false,
            },
    {
        match self {
            MdlRightValue::IMdl(imdl) => MdlRightValue::IMdl(imdl.clone()),
            MdlRightValue::MkVal(mk_val) => MdlRightValue::MkVal(mk_val.clone()),
        }
    }
}

impl<V: Clone> MdlRightValue<V> {
    /// The instantiated model, copied with the bindings that `bindings`
    /// holds filled into its parameters.
    pub fn as_filled_in_imdl(&self, bindings: &StrMap<V>) -> (r: IMdl<V>)
        requires
            self is IMdl,
        ensures
            imdl_filled(self->IMdl_0, r, bindings@),
    {
        self.as_imdl().filled_in(bindings)
    }

    /// A copy with the bindings that `bindings` holds filled in: into the
    /// parameters, the value, and a bound entity, which becomes the entity
    /// that `entity_id_of` reads from its value, if it reads one.
    pub fn filled_in<F: Fn(&V) -> Option<String>>(&self, bindings: &StrMap<V>, entity_id_of: F) -> (r:
        MdlRightValue<V>)
        requires
            forall|v: &V| entity_id_of.requires((v,)),
        ensures
            match (*self, r) {
                (MdlRightValue::IMdl(a), MdlRightValue::IMdl(b)) => imdl_filled(a, b, bindings@),
                (MdlRightValue::MkVal(a), MdlRightValue::MkVal(b)) => mk_val_filled(
                    a,
                    b,
                    bindings@,
                    entity_id_of,
                ),
                _ => false,
            },
    {
        match self {
            MdlRightValue::IMdl(imdl) => MdlRightValue::IMdl(imdl.filled_in(bindings)),
            MdlRightValue::MkVal(mk_val) => MdlRightValue::MkVal(
                filled_mk_val(mk_val, bindings, &entity_id_of),
            ),
        }
    }

    pub fn as_imdl(&self) -> (r: &IMdl<V>)
        requires
            self is IMdl,
        ensures
            *r == self->IMdl_0,
    {
        match self {
            MdlRightValue::IMdl(imdl) => imdl,
            _ => vstd::pervasive::unreached(),
        }
    }

    pub fn as_mk_val(&self) -> (r: &MkVal<V>)
        requires
            self is MkVal,
        ensures
            *r == self->MkVal_0,
    {
        match self {
            MdlRightValue::MkVal(mk_val) => mk_val,
            _ => vstd::pervasive::unreached(),
        }
    }
}

/// A model. Its confidence is of a type of the user's choosing: nothing here
/// reads it.
pub struct Mdl<V: Clone, C> {
    pub model_id: String,
    pub left: Fact<MdlLeftValue<V>>,
    pub right: Fact<MdlRightValue<V>>,
    pub confidence: C,
    pub success_count: usize,
    pub forward_computed: Vec<(String, Function<V>)>,
    pub backward_computed: Vec<(String, Function<V>)>,
}

/// `t` copies the computed functions `s`: the same names, each function
/// cloned.
pub open spec fn computed_cloned<V: Clone>(
    s: Seq<(String, Function<V>)>,
    t: Seq<(String, Function<V>)>,
) -> bool {
    &&& t.len() == s.len()
    &&& forall|i: int|
        0 <= i < s.len() ==> (#[trigger] t[i]).0 == s[i].0 && function_cloned(s[i].1, t[i].1)
}

/// A copy of the computed functions.
fn clone_computed<V: Clone>(s: &Vec<(String, Function<V>)>) -> (r: Vec<(String, Function<V>)>)
    ensures
        computed_cloned(s@, r@),
{
    let mut out: Vec<(String, Function<V>)> = Vec::new();
    let mut i: usize = 0;
    while i < s.len()
        invariant
            i <= s.len(),
            out@.len() == i,
            forall|j: int|
                0 <= j < i ==> (#[trigger] out@[j]).0 == s@[j].0 && function_cloned(s@[j].1, out@[j].1),
        decreases s.len() - i,
    {
        out.push((s[i].0.clone(), s[i].1.clone()));
        i = i + 1;
    }
    out
}

/// `b` is a copy of model `a`: the same id, time ranges and success count,
/// its sides, confidence and computed functions cloned.
pub open spec fn mdl_cloned<V: Clone, C: Clone>(a: Mdl<V, C>, b: Mdl<V, C>) -> bool {
    &&& b.model_id == a.model_id
    &&& b.left.time_range == a.left.time_range
    &&& cloned(a.left.pattern, b.left.pattern)
    &&& b.right.time_range == a.right.time_range
    &&& cloned(a.right.pattern, b.right.pattern)
    &&& cloned(a.confidence, b.confidence)
    &&& b.success_count == a.success_count
    &&& computed_cloned(a.forward_computed@, b.forward_computed@)
    &&& computed_cloned(a.backward_computed@, b.backward_computed@)
}

impl<V: Clone, C: Clone> Clone for Mdl<V, C> {
    fn clone(&self) -> (r: Self)
        ensures
            mdl_cloned(*self, r),
    {
        Mdl {
            model_id: self.model_id.clone(),
            left: self.left.clone(),
            right: self.right.clone(),
            confidence: self.confidence.clone(),
            success_count: self.success_count,
            forward_computed: clone_computed(&self.forward_computed),
            backward_computed: clone_computed(&self.backward_computed),
        }
    }
}

/// The bindings of a left-hand side.
pub open spec fn left_bindings<V: Clone>(l: MdlLeftValue<V>) -> Seq<Seq<char>> {
    match l {
        MdlLeftValue::ICst(icst) => pattern_bindings(icst.params@),
        MdlLeftValue::Command(cmd) => command_bindings(cmd),
        MdlLeftValue::MkVal(mk_val) => mk_val_bindings(mk_val),
        MdlLeftValue::IMdl(imdl) => pattern_bindings(imdl.params@),
    }
}

/// The bindings of a right-hand side.
pub open spec fn right_bindings<V: Clone>(r: MdlRightValue<V>) -> Seq<Seq<char>> {
    match r {
        MdlRightValue::IMdl(imdl) => pattern_bindings(imdl.params@),
        MdlRightValue::MkVal(mk_val) => mk_val_bindings(mk_val),
    }
}

/// The bindings that the computed functions read, function after function.
pub open spec fn computed_bindings<V>(s: Seq<(String, Function<V>)>) -> Seq<Seq<char>>
    decreases s.len(),
{
    if s.len() == 0 {
        seq![]
    } else {
        computed_bindings(s.drop_last()) + function_bindings(s.last().1)
    }
}

/// The names of the bindings that the computed functions assign.
pub open spec fn computed_names<V>(s: Seq<(String, Function<V>)>) -> Seq<Seq<char>> {
    s.map_values(|p: (String, Function<V>)| p.0@)
}

/// The names of `s` that are not in `excluded`, in order.
pub open spec fn without(s: Seq<Seq<char>>, excluded: Seq<Seq<char>>) -> Seq<Seq<char>>
    decreases s.len(),
{
    if s.len() == 0 {
        seq![]
    } else if excluded.contains(s.last()) {
        without(s.drop_last(), excluded)
    } else {
        without(s.drop_last(), excluded).push(s.last())
    }
}

/// A name is kept exactly when it occurs and is not excluded.
pub proof fn lemma_without(s: Seq<Seq<char>>, excluded: Seq<Seq<char>>)
    ensures
        forall|x: Seq<char>| #[trigger] without(s, excluded).contains(x) <==> (s.contains(x)
            && !excluded.contains(x)),
    decreases s.len(),
{
    if s.len() > 0 {
        let init = s.drop_last();
        lemma_without(init, excluded);
        let w = without(init, excluded);
        assert forall|x: Seq<char>| #[trigger] without(s, excluded).contains(x) <==> (s.contains(x)
            && !excluded.contains(x)) by {
            if init.contains(x) {
                let i = choose|i: int| 0 <= i < init.len() && init[i] == x;
                assert(s[i] == x);
            }
            if s.contains(x) {
                let i = choose|i: int| 0 <= i < s.len() && s[i] == x;
                if i < s.len() - 1 {
                    assert(init[i] == x);
                }
            }
            if !excluded.contains(s.last()) {
                let w2 = w.push(s.last());
                assert(w2[w.len() as int] == s.last());
                if w2.contains(x) {
                    let i = choose|i: int| 0 <= i < w2.len() && w2[i] == x;
                    if i < w.len() {
                        assert(w[i] == x);
                    }
                }
                if w.contains(x) {
                    let i = choose|i: int| 0 <= i < w.len() && w[i] == x;
                    assert(w2[i] == x);
                }
            }
        }
    }
}

/// The parameters of a model: the bindings of its left-hand side, of its
/// computed functions and of its right-hand side, leaving out those that a
/// computed function assigns, each once, where it first occurs.
pub open spec fn model_params<V: Clone, C>(m: Mdl<V, C>) -> Seq<Seq<char>> {
    unique_seq(
        without(
            left_bindings(m.left.pattern) + computed_bindings(m.forward_computed@) + right_bindings(
                m.right.pattern,
            ),
            computed_names(m.forward_computed@),
        ),
    )
}

/// Whether a name is among the names of `v`.
fn contains_name(v: &Vec<(String, Function<impl Sized>)>, name: &String) -> (r: bool)
    ensures
        r == computed_names(v@).contains(name@),
{
    let ghost names = computed_names(v@);
    let mut i: usize = 0;
    while i < v.len()
        invariant
            i <= v.len(),
            names == computed_names(v@),
            forall|j: int| 0 <= j < i ==> names[j] != name@,
        decreases v.len() - i,
    {
        if v[i].0 == *name {
            assert(names[i as int] == name@);
            return true;
        }
        i = i + 1;
    }
    false
}

impl<V: Clone, C> Mdl<V, C> {
    /// The parameters of the model, in the order an instantiation lists
    /// them: the bindings of the left-hand side, of the computed functions
    /// and of the right-hand side, each once, leaving out those that a
    /// computed function assigns.
    pub fn binding_param(&self) -> (r: Vec<String>)
        ensures
            strings_view(r@) == model_params(*self),
            strings_view(r@).no_duplicates(),
            forall|b: Seq<char>|
                #[trigger] strings_view(r@).contains(b) <==> {
                    &&& (left_bindings(self.left.pattern) + computed_bindings(
                        self.forward_computed@,
                    ) + right_bindings(self.right.pattern)).contains(b)
                    &&& !computed_names(self.forward_computed@).contains(b)
                },
    {
        let mut all: Vec<String> = match &self.left.pattern {
            MdlLeftValue::ICst(cst) => bindings_in_pattern(&cst.params),
            MdlLeftValue::Command(cmd) => cmd.get_bindings(),
            MdlLeftValue::MkVal(mk_val) => mk_val.get_bindings(),
            MdlLeftValue::IMdl(imdl) => bindings_in_pattern(&imdl.params),
        };
        let ghost left = strings_view(all@);
        let mut i: usize = 0;
        assert(computed_bindings(self.forward_computed@.subrange(0, 0)) =~= Seq::<Seq<char>>::empty());
        assert(strings_view(all@) =~= left + computed_bindings(self.forward_computed@.subrange(0, 0)));
        while i < self.forward_computed.len()
            invariant
                i <= self.forward_computed.len(),
                strings_view(all@) == left + computed_bindings(
                    self.forward_computed@.subrange(0, i as int),
                ),
            decreases self.forward_computed.len() - i,
        {
            let mut b = self.forward_computed[i].1.binding_params();
            let ghost before = strings_view(all@);
            let ghost added = strings_view(b@);
            all.append(&mut b);
            assert(self.forward_computed@.subrange(0, i + 1).drop_last()
                =~= self.forward_computed@.subrange(0, i as int));
            assert(strings_view(all@) =~= before + added);
            i = i + 1;
        }
        assert(self.forward_computed@.subrange(0, i as int) =~= self.forward_computed@);
        let mut right = match &self.right.pattern {
            MdlRightValue::IMdl(imdl) => bindings_in_pattern(&imdl.params),
            MdlRightValue::MkVal(mk_val) => mk_val.get_bindings(),
        };
        let ghost before = strings_view(all@);
        let ghost added = strings_view(right@);
        all.append(&mut right);
        assert(strings_view(all@) =~= before + added);
        let ghost all_names = strings_view(all@);
        let mut kept: Vec<String> = Vec::new();
        let mut j: usize = 0;
        assert(strings_view(kept@) =~= without(
            all_names.subrange(0, 0),
            computed_names(self.forward_computed@),
        ));
        while j < all.len()
            invariant
                j <= all.len(),
                all_names == strings_view(all@),
                strings_view(kept@) == without(
                    all_names.subrange(0, j as int),
                    computed_names(self.forward_computed@),
                ),
            decreases all.len() - j,
        {
            assert(all_names.subrange(0, j + 1).drop_last() =~= all_names.subrange(0, j as int));
            assert(all_names[j as int] == all@[j as int]@);
            if !contains_name(&self.forward_computed, &all[j]) {
                let ghost k = strings_view(kept@);
                kept.push(all[j].clone());
                assert(strings_view(kept@) =~= k.push(all@[j as int]@));
            }
            j = j + 1;
        }
        assert(all_names.subrange(0, j as int) =~= all_names);
        proof {
            let w = without(all_names, computed_names(self.forward_computed@));
            lemma_without(all_names, computed_names(self.forward_computed@));
            lemma_unique_seq(w);
        }
        unique_strings(&kept)
    }

    /// The bindings that the computed functions assign.
    pub fn fwd_guard_params(&self) -> (r: Vec<&str>)
        ensures
            r@.len() == self.forward_computed@.len(),
            forall|i: int|
                0 <= i < r@.len() ==> (#[trigger] r@[i])@ == self.forward_computed@[i].0@,
    {
        let mut r: Vec<&str> = Vec::new();
        let mut i: usize = 0;
        while i < self.forward_computed.len()
            invariant
                i <= self.forward_computed.len(),
                r@.len() == i,
                forall|j: int|
                    0 <= j < i ==> (#[trigger] r@[j])@ == self.forward_computed@[j].0@,
            decreases self.forward_computed.len() - i,
        {
            r.push(self.forward_computed[i].0.as_str());
            i = i + 1;
        }
        r
    }

    /// A command or an instantiated model brings about a variable value.
    pub fn is_casual_model(&self) -> (r: bool)
        ensures
            r == ((self.left.pattern is Command || self.left.pattern is IMdl)
                && self.right.pattern is MkVal),
    {
        match (&self.left.pattern, &self.right.pattern) {
            (MdlLeftValue::Command(_), MdlRightValue::MkVal(_))
            | (MdlLeftValue::IMdl(_), MdlRightValue::MkVal(_)) => true,
            _ => false,
        }
    }

    /// The left-hand side is an instantiated model.
    pub fn is_reuse_model(&self) -> (r: bool)
        ensures
            r == self.left.pattern is IMdl,
    {
        match &self.left.pattern {
            MdlLeftValue::IMdl(_) => true,
            _ => false,
        }
    }

    /// A composite state enables an instantiated model.
    pub fn is_req_model(&self) -> (r: bool)
        ensures
            r == (self.left.pattern is ICst && self.right.pattern is IMdl),
    {
        match (&self.left.pattern, &self.right.pattern) {
            (MdlLeftValue::ICst(_), MdlRightValue::IMdl(_)) => true,
            _ => false,
        }
    }

    /// A composite state lets a variable value be assumed.
    pub fn is_assumption_model(&self) -> (r: bool)
        ensures
            r == (self.left.pattern is ICst && self.right.pattern is MkVal
                && self.right.pattern->MkVal_0.assumption),
    {
        match (&self.left.pattern, &self.right.pattern) {
            (MdlLeftValue::ICst(_), MdlRightValue::MkVal(mk_val)) => mk_val.assumption,
            _ => false,
        }
    }

    /// A composite state predicts a variable value that is not assumed.
    pub fn is_state_prediction(&self) -> (r: bool)
        ensures
            r == (self.left.pattern is ICst && self.right.pattern is MkVal
                && !self.right.pattern->MkVal_0.assumption),
    {
        match (&self.left.pattern, &self.right.pattern) {
            (MdlLeftValue::ICst(_), MdlRightValue::MkVal(mk_val)) => !mk_val.assumption,
            _ => false,
        }
    }
}

/// A model with values for some of its bindings.
pub struct BoundModel<V: Clone, C> {
    pub bindings: StrMap<V>,
    pub model: Mdl<V, C>,
}

/// The bindings after computing each function in turn: one that has a
/// value under the bindings so far binds its name to it, one that has none
/// leaves them as they are.
pub open spec fn computed_after<
    V,
    M: Fn(Vec<V>) -> V,
    O: Fn(ArithOp, V, V) -> Option<V>,
    T: Fn(V) -> Option<V>,
    N: Fn(V) -> Option<V>,
>(
    m: Map<Seq<char>, V>,
    s: Seq<(String, Function<V>)>,
    make_vec: M,
    arith: O,
    to_entity_id: T,
    to_number: N,
) -> Map<Seq<char>, V>
    decreases s.len(),
{
    if s.len() == 0 {
        m
    } else {
        let prev = computed_after(m, s.drop_last(), make_vec, arith, to_entity_id, to_number);
        match evaluation(s.last().1, prev, make_vec, arith, to_entity_id, to_number) {
            Some(v) => prev.insert(s.last().0@, v),
            None => prev,
        }
    }
}

/// Computes each function in turn into the bindings.
pub(crate) fn compute_bindings<
    V: Clone,
    M: Fn(Vec<V>) -> V,
    O: Fn(ArithOp, V, V) -> Option<V>,
    T: Fn(V) -> Option<V>,
    N: Fn(V) -> Option<V>,
>(
    bindings: &mut StrMap<V>,
    computed: &Vec<(String, Function<V>)>,
    make_vec: &M,
    arith: &O,
    to_entity_id: &T,
    to_number: &N,
)
    requires
        make_vec_decides(*make_vec),
        clones_equal::<V>(),
        arith_decides(*arith),
        conv_decides(*to_entity_id),
        conv_decides(*to_number),
    ensures
        final(bindings)@ == computed_after(
            old(bindings)@,
            computed@,
            *make_vec,
            *arith,
            *to_entity_id,
            *to_number,
        ),
{
    let ghost m0 = bindings@;
    let mut i: usize = 0;
    assert(computed@.subrange(0, 0) =~= Seq::<(String, Function<V>)>::empty());
    while i < computed.len()
        invariant
            i <= computed.len(),
            m0 == old(bindings)@,
            make_vec_decides(*make_vec),
            clones_equal::<V>(),
            arith_decides(*arith),
            conv_decides(*to_entity_id),
            conv_decides(*to_number),
            bindings@ == computed_after(
                m0,
                computed@.subrange(0, i as int),
                *make_vec,
                *arith,
                *to_entity_id,
                *to_number,
            ),
        decreases computed.len() - i,
    {
        let ghost prefix = computed@.subrange(0, i + 1);
        assert(prefix.drop_last() =~= computed@.subrange(0, i as int));
        assert(prefix.last() == computed@[i as int]);
        let (name, function) = &computed[i];
        match function.evaluate(bindings, make_vec, arith, to_entity_id, to_number) {
            Some(v) => {
                bindings.insert(name.clone(), v);
            },
            None => {},
        }
        i = i + 1;
    }
    assert(computed@.subrange(0, i as int) =~= computed@);
}

/// `r` is the instantiation that model `model` with the bindings `m` gives:
/// a parameter for each binding of the model, a copy of its value where it
/// is bound and a wildcard elsewhere, and a copy of the value of each
/// forward-computed binding that is bound.
pub open spec fn imdl_bound<V: Clone, C>(model: Mdl<V, C>, m: Map<Seq<char>, V>, r: IMdl<V>) -> bool {
    &&& r.model_id == model.model_id
    &&& r.params@.len() == model_params(model).len()
    &&& forall|i: int|
        #![trigger r.params@[i]]
        0 <= i < r.params@.len() ==> {
            let b = model_params(model)[i];
            if m.contains_key(b) {
                r.params@[i] is Value && cloned(m[b], r.params@[i]->Value_0)
            } else {
                r.params@[i] is Any
            }
        }
    &&& forall|k: Seq<char>|
        #[trigger] r.fwd_guard_bindings@.contains_key(k) <==> (m.contains_key(k) && exists|j: int|
            0 <= j < model.forward_computed@.len() && model.forward_computed@[j].0@ == k)
    &&& forall|k: Seq<char>|
        #[trigger] r.fwd_guard_bindings@.contains_key(k) ==> cloned(m[k], r.fwd_guard_bindings@[k])
}

/// The instantiation that the model with these bindings gives.
pub(crate) fn imdl_for<V: Clone, C>(model: &Mdl<V, C>, bindings: &StrMap<V>) -> (r: IMdl<V>)
    ensures
        imdl_bound(*model, bindings@, r),
{
    let binding_params = model.binding_param();
    let mut params: Vec<PatternItem<V>> = Vec::new();
    let mut i: usize = 0;
    while i < binding_params.len()
        invariant
            i <= binding_params.len(),
            strings_view(binding_params@) == model_params(*model),
            params@.len() == i,
            forall|j: int|
                #![trigger params@[j]]
                0 <= j < i ==> {
                    let b = model_params(*model)[j];
                    if bindings@.contains_key(b) {
                        params@[j] is Value && cloned(bindings@[b], params@[j]->Value_0)
                    } else {
                        params@[j] is Any
                    }
                },
        decreases binding_params.len() - i,
    {
        assert(strings_view(binding_params@)[i as int] == binding_params@[i as int]@);
        let p = match bindings.get(&binding_params[i]) {
            Some(v) => PatternItem::Value(v.clone()),
            None => PatternItem::Any,
        };
        params.push(p);
        i = i + 1;
    }
    let guard_names = model.fwd_guard_params();
    let mut guards: StrMap<V> = StrMap::new();
    let mut j: usize = 0;
    while j < guard_names.len()
        invariant
            j <= guard_names.len(),
            guard_names@.len() == model.forward_computed@.len(),
            forall|l: int|
                0 <= l < guard_names@.len() ==> (#[trigger] guard_names@[l])@
                    == model.forward_computed@[l].0@,
            forall|k: Seq<char>|
                #[trigger] guards@.contains_key(k) <==> (bindings@.contains_key(k) && exists|l: int|
                    0 <= l < j && model.forward_computed@[l].0@ == k),
            forall|k: Seq<char>|
                #[trigger] guards@.contains_key(k) ==> cloned(bindings@[k], guards@[k]),
        decreases guard_names.len() - j,
    {
        let name = guard_names[j];
        match bindings.get(&name.to_owned()) {
            Some(v) => {
                let c = v.clone();
                guards.insert(name.to_owned(), c);
            },
            None => {},
        }
        assert forall|k: Seq<char>|
            #[trigger] guards@.contains_key(k) <==> (bindings@.contains_key(k) && exists|l: int|
                0 <= l < j + 1 && model.forward_computed@[l].0@ == k) by {
            if bindings@.contains_key(k) && model.forward_computed@[j as int].0@ == k {
                assert(guard_names@[j as int]@ == k);
            }
        }
        j = j + 1;
    }
    IMdl::with_fwd_guards(model.model_id.clone(), params, guards)
}

/// `r` is an answer that comparing an anti-requirement with the
/// instantiation of model `id` with parameters `params` may give, unbound
/// items allowed and lengths free.
pub open spec fn anti_answer<V: Clone, E: Fn(&V, &V) -> bool, A: Fn(&V) -> Option<Vec<V>>>(
    req: IMdl<V>,
    id: String,
    params: Seq<PatternItem<V>>,
    eq: E,
    as_vec: A,
    r: bool,
) -> bool {
    if r {
        req.model_id@ == id@ && patterns_compare_answer(req.params@, params, true, true, eq, as_vec, true)
    } else {
        req.model_id@ != id@ || patterns_compare_answer(
            req.params@,
            params,
            true,
            true,
            eq,
            as_vec,
            false,
        )
    }
}

/// `r` is the right-hand side `a` with the bindings `m` filled in.
pub open spec fn right_filled<V: Clone, F: Fn(&V) -> Option<String>>(
    a: MdlRightValue<V>,
    r: MdlRightValue<V>,
    m: Map<Seq<char>, V>,
    entity_id_of: F,
) -> bool {
    match (a, r) {
        (MdlRightValue::IMdl(x), MdlRightValue::IMdl(y)) => imdl_filled(x, y, m),
        (MdlRightValue::MkVal(x), MdlRightValue::MkVal(y)) => mk_val_filled(x, y, m, entity_id_of),
        _ => false,
    }
}

/// A copy of the bindings.
pub(crate) fn copy_bindings<V: Clone>(m: &StrMap<V>) -> (r: StrMap<V>)
    requires
        clones_equal::<V>(),
    ensures
        r@ == m@,
{
    let r = m.clone();
    proof {
        assert forall|i: int| 0 <= i < r.entries_view().len() implies r.entries_view()[i]
            == m.entries_view()[i] by {
            assert(cloned(m.entries_view()[i].1, r.entries_view()[i].1));
        }
        assert(r.entries_view() =~= m.entries_view());
    }
    r
}

impl<V: Clone, C> BoundModel<V, C> {
    /// The instantiation that would instantiate this model: a parameter for
    /// each binding of the model, its value where it is bound and a
    /// wildcard elsewhere, and the values of the bound forward-computed
    /// bindings.
    pub fn imdl_for_model(&self) -> (r: IMdl<V>)
        ensures
            imdl_bound(self.model, self.bindings@, r),
    {
        imdl_for(&self.model, &self.bindings)
    }

    /// Computes the model's forward functions, in order, into the bindings.
    pub fn compute_forward_bindings<
        M: Fn(Vec<V>) -> V,
        O: Fn(ArithOp, V, V) -> Option<V>,
        T: Fn(V) -> Option<V>,
        N: Fn(V) -> Option<V>,
    >(&mut self, make_vec: &M, arith: &O, to_entity_id: &T, to_number: &N)
        requires
            make_vec_decides(*make_vec),
            clones_equal::<V>(),
            arith_decides(*arith),
            conv_decides(*to_entity_id),
            conv_decides(*to_number),
        ensures
            final(self).bindings@ == computed_after(
                old(self).bindings@,
                old(self).model.forward_computed@,
                *make_vec,
                *arith,
                *to_entity_id,
                *to_number,
            ),
            final(self).model == old(self).model,
    {
        compute_bindings(
            &mut self.bindings,
            &self.model.forward_computed,
            make_vec,
            arith,
            to_entity_id,
            to_number,
        );
    }

    /// Computes the model's backward functions, in order, into the
    /// bindings.
    pub fn compute_backward_bindings<
        M: Fn(Vec<V>) -> V,
        O: Fn(ArithOp, V, V) -> Option<V>,
        T: Fn(V) -> Option<V>,
        N: Fn(V) -> Option<V>,
    >(&mut self, make_vec: &M, arith: &O, to_entity_id: &T, to_number: &N)
        requires
            make_vec_decides(*make_vec),
            clones_equal::<V>(),
            arith_decides(*arith),
            conv_decides(*to_entity_id),
            conv_decides(*to_number),
        ensures
            final(self).bindings@ == computed_after(
                old(self).bindings@,
                old(self).model.backward_computed@,
                *make_vec,
                *arith,
                *to_entity_id,
                *to_number,
            ),
            final(self).model == old(self).model,
    {
        compute_bindings(
            &mut self.bindings,
            &self.model.backward_computed,
            make_vec,
            arith,
            to_entity_id,
            to_number,
        );
    }

    /// The model's left-hand side with the bindings filled in.
    pub fn filled_in_lhs<F: Fn(&V) -> Option<String>>(&self, entity_id_of: F) -> (r: MdlLeftValue<V>)
        requires
            forall|v: &V| entity_id_of.requires((v,)),
        ensures
            left_filled(self.model.left.pattern, r, self.bindings@, entity_id_of),
    {
        self.model.left.pattern.filled_in(&self.bindings, entity_id_of)
    }

    /// The model's right-hand side with the bindings filled in.
    pub fn filled_in_rhs<F: Fn(&V) -> Option<String>>(&self, entity_id_of: F) -> (r: MdlRightValue<V>)
        requires
            forall|v: &V| entity_id_of.requires((v,)),
        ensures
            right_filled(self.model.right.pattern, r, self.bindings@, entity_id_of),
    {
        self.model.right.pattern.filled_in(&self.bindings, entity_id_of)
    }
}

impl<V: Clone, C: Clone> BoundModel<V, C> {
    /// Matches the model's left-hand side, with the bindings filled in,
    /// against the input; on a match, the model with the bindings the match
    /// found, overridden by its own, and then its forward functions
    /// computed.
    pub fn extend_bindings_with_lhs_input<
        E: Fn(&V, &V) -> bool,
        A: Fn(&V) -> Option<Vec<V>>,
        M: Fn(Vec<V>) -> V,
        O: Fn(ArithOp, V, V) -> Option<V>,
        T: Fn(V) -> Option<V>,
        N: Fn(V) -> Option<V>,
    >(
        &self,
        input: &Fact<MdlLeftValue<V>>,
        eq: &E,
        as_vec: &A,
        make_vec: &M,
        arith: &O,
        to_entity_id: &T,
        to_number: &N,
    ) -> (r: Option<BoundModel<V, C>>)
        requires
            value_ops_sound(*eq, *as_vec, *make_vec),
            arith_decides(*arith),
            conv_decides(*to_entity_id),
            conv_decides(*to_number),
        ensures
            match r {
                Some(bound) => exists|found: StrMap<V>|
                    #[trigger] left_match_outcome(
                        self.model.left.pattern,
                        self.bindings@,
                        input.pattern,
                        *eq,
                        *as_vec,
                        *make_vec,
                        PatternMatchResult::True(found),
                    ) && bound.bindings@ == computed_after(
                        found@.union_prefer_right(self.bindings@),
                        self.model.forward_computed@,
                        *make_vec,
                        *arith,
                        *to_entity_id,
                        *to_number,
                    ) && mdl_cloned(self.model, bound.model),
                None => left_match_outcome(
                    self.model.left.pattern,
                    self.bindings@,
                    input.pattern,
                    *eq,
                    *as_vec,
                    *make_vec,
                    PatternMatchResult::False,
                ),
            },
    {
        let outcome = self.model.left.pattern.matches(
            &self.bindings,
            &input.pattern,
            eq,
            as_vec,
            make_vec,
        );
        let ghost g_outcome = outcome;
        let found = match outcome {
            PatternMatchResult::True(found) => found,
            PatternMatchResult::False => {
                return None;
            },
        };
        let ghost g_found = found;
        let mut bindings = found;
        bindings.extend(copy_bindings(&self.bindings));
        compute_bindings(
            &mut bindings,
            &self.model.forward_computed,
            make_vec,
            arith,
            to_entity_id,
            to_number,
        );
        let model = self.model.clone();
        assert(g_outcome == PatternMatchResult::True(g_found));
        Some(BoundModel { bindings, model })
    }
}

/// `r` is what deduction from `input` with the bound model `bm` may give:
/// see `BoundModel::deduce`.
pub open spec fn deduced<
    V: Clone,
    C,
    E: Fn(&V, &V) -> bool,
    A: Fn(&V) -> Option<Vec<V>>,
    M: Fn(Vec<V>) -> V,
    O: Fn(ArithOp, V, V) -> Option<V>,
    T: Fn(V) -> Option<V>,
    N: Fn(V) -> Option<V>,
    F: Fn(&V) -> Option<String>,
>(
    bm: BoundModel<V, C>,
    input: Fact<MdlLeftValue<V>>,
    anti: Seq<&IMdl<V>>,
    r: Option<Fact<MdlRightValue<V>>>,
    eq: E,
    as_vec: A,
    make_vec: M,
    arith: O,
    to_entity_id: T,
    to_number: N,
    entity_id_of: F,
) -> bool {
    match r {
        Some(out) => exists|found: StrMap<V>|
            #[trigger] left_match_outcome(
                bm.model.left.pattern,
                bm.bindings@,
                input.pattern,
                eq,
                as_vec,
                make_vec,
                PatternMatchResult::True(found),
            ) && {
                let m = computed_after(
                    found@.union_prefer_right(bm.bindings@),
                    bm.model.forward_computed@,
                    make_vec,
                    arith,
                    to_entity_id,
                    to_number,
                );
                &&& forall|k: int|
                    0 <= k < anti.len() ==> anti_answer(
                        *anti[k],
                        bm.model.model_id,
                        bound_icst_params(model_params(bm.model), m),
                        eq,
                        as_vec,
                        false,
                    )
                &&& out.time_range == bm.model.right.time_range
                &&& right_filled(bm.model.right.pattern, out.pattern, m, entity_id_of)
            },
        None => left_match_outcome(
            bm.model.left.pattern,
            bm.bindings@,
            input.pattern,
            eq,
            as_vec,
            make_vec,
            PatternMatchResult::False,
        ) || exists|found: StrMap<V>|
            #[trigger] left_match_outcome(
                bm.model.left.pattern,
                bm.bindings@,
                input.pattern,
                eq,
                as_vec,
                make_vec,
                PatternMatchResult::True(found),
            ) && exists|k: int|
                0 <= k < anti.len() && anti_answer(
                    *anti[k],
                    bm.model.model_id,
                    bound_icst_params(
                        model_params(bm.model),
                        computed_after(
                            found@.union_prefer_right(bm.bindings@),
                            bm.model.forward_computed@,
                            make_vec,
                            arith,
                            to_entity_id,
                            to_number,
                        ),
                    ),
                    eq,
                    as_vec,
                    true,
                ),
    }
}

impl<V: Clone, C> BoundModel<V, C> {
    /// Deduces what the model predicts from an input: the model's left-hand
    /// side, with the bindings filled in, must match the input; the bindings
    /// the match found, overridden by the model's own, are extended by the
    /// forward functions; unless the resulting instantiation matches one of
    /// the anti-requirements, the prediction is the right-hand side with
    /// those bindings filled in, over the right-hand side's time range.
    pub fn deduce<
        E: Fn(&V, &V) -> bool,
        A: Fn(&V) -> Option<Vec<V>>,
        M: Fn(Vec<V>) -> V,
        O: Fn(ArithOp, V, V) -> Option<V>,
        T: Fn(V) -> Option<V>,
        N: Fn(V) -> Option<V>,
        F: Fn(&V) -> Option<String>,
    >(
        &self,
        input: &Fact<MdlLeftValue<V>>,
        anti_requirements: &Vec<&IMdl<V>>,
        eq: &E,
        as_vec: &A,
        make_vec: &M,
        arith: &O,
        to_entity_id: &T,
        to_number: &N,
        entity_id_of: F,
    ) -> (r: Option<Fact<MdlRightValue<V>>>)
        requires
            value_ops_sound(*eq, *as_vec, *make_vec),
            arith_decides(*arith),
            conv_decides(*to_entity_id),
            conv_decides(*to_number),
            forall|v: &V| entity_id_of.requires((v,)),
        ensures
            deduced(
                *self,
                *input,
                anti_requirements@,
                r,
                *eq,
                *as_vec,
                *make_vec,
                *arith,
                *to_entity_id,
                *to_number,
                entity_id_of,
            ),
    {
        let outcome = self.model.left.pattern.matches(
            &self.bindings,
            &input.pattern,
            eq,
            as_vec,
            make_vec,
        );
        let ghost g_outcome = outcome;
        let found = match outcome {
            PatternMatchResult::True(found) => found,
            PatternMatchResult::False => {
                return None;
            },
        };
        let ghost g_found = found;
        assert(g_outcome == PatternMatchResult::True(g_found));
        let mut bindings = found;
        bindings.extend(copy_bindings(&self.bindings));
        compute_bindings(
            &mut bindings,
            &self.model.forward_computed,
            make_vec,
            arith,
            to_entity_id,
            to_number,
        );
        let self_imdl = imdl_for(&self.model, &bindings);
        let ghost params = bound_icst_params(model_params(self.model), bindings@);
        assert forall|i: int| 0 <= i < params.len() implies #[trigger] self_imdl.params@[i]
            == params[i] by {
            let b = model_params(self.model)[i];
            if bindings@.contains_key(b) {
                assert(cloned(bindings@[b], self_imdl.params@[i]->Value_0));
            }
        }
        assert(self_imdl.params@ =~= params);
        let mut k: usize = 0;
        while k < anti_requirements.len()
            invariant
                k <= anti_requirements.len(),
                value_ops_sound(*eq, *as_vec, *make_vec),
                self_imdl.params@ == params,
                self_imdl.model_id == self.model.model_id,
                left_match_outcome(
                    self.model.left.pattern,
                    self.bindings@,
                    input.pattern,
                    *eq,
                    *as_vec,
                    *make_vec,
                    PatternMatchResult::True(g_found),
                ),
                bindings@ == computed_after(
                    g_found@.union_prefer_right(self.bindings@),
                    self.model.forward_computed@,
                    *make_vec,
                    *arith,
                    *to_entity_id,
                    *to_number,
                ),
                params == bound_icst_params(model_params(self.model), bindings@),
                forall|j: int|
                    0 <= j < k ==> anti_answer(
                        *anti_requirements@[j],
                        self.model.model_id,
                        params,
                        *eq,
                        *as_vec,
                        false,
                    ),
            decreases anti_requirements.len() - k,
        {
            if compare_imdls(anti_requirements[k], &self_imdl, true, true, eq, as_vec) {
                assert(anti_answer(
                    *anti_requirements@[k as int],
                    self.model.model_id,
                    params,
                    *eq,
                    *as_vec,
                    true,
                ));
                return None;
            }
            k = k + 1;
        }
        let rhs = self.model.right.pattern.filled_in(&bindings, entity_id_of);
        Some(self.model.right.with_pattern(rhs))
    }
}

} // verus!
