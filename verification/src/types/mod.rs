//! Facts, time patterns, entity patterns and the keys under which the
//! runtime stores entity variables; the modules below hold patterns,
//! composite states, functions, models and their instances.

pub mod cst;
pub mod functions;
pub mod instances;
pub mod models;
pub mod pattern;
pub mod runtime;
pub mod state_instances;

use vstd::prelude::*;
use crate::runtime::pattern_matching::{bind_values_to_pattern, bound_values, clones_equal, item_no_wildcard, make_vec_decides};
use crate::str_map::StrMap;
use crate::types::runtime::RuntimeCommand;
use crate::types::pattern::{
    bindings_in_pattern, clone_items, item_bindings, item_cloned, items_cloned, pattern_bindings,
    strings_view, PatternItem,
};

verus! {

/// Time is stored in milliseconds.
pub type Time = u64;

/// Something that can decide whether it matches a fact about `T`.
pub trait MatchesFact<T: Clone> {
    fn matches_fact(&self, fact: &Fact<T>) -> bool;
}

/// A pattern together with the time range in which it holds.
#[derive(Debug, PartialEq)]
pub struct Fact<T: Clone> {
    pub pattern: T,
    pub time_range: TimePatternRange,
}

impl<T: Clone> Clone for Fact<T> {
    fn clone(&self) -> (r: Self)
        ensures
            cloned(self.pattern, r.pattern),
            r.time_range == self.time_range,
    {
        Fact { pattern: self.pattern.clone(), time_range: self.time_range.clone() }
    }
}

impl<T: Clone> Fact<T> {
    pub fn new(pattern: T, time_range: TimePatternRange) -> (f: Fact<T>)
        ensures
            f.pattern == pattern,
            f.time_range == time_range,
    {
        Fact { pattern, time_range }
    }

    /// The same time range with another pattern.
    pub fn with_pattern<T2: Clone>(&self, pattern: T2) -> (f: Fact<T2>)
        ensures
            f.pattern == pattern,
            f.time_range == self.time_range,
    {
        Fact { pattern, time_range: self.time_range.clone() }
    }
}

/// A value of a variable of an entity, as a pattern.
#[derive(Debug, PartialEq)]
pub struct MkVal<V> {
    pub entity_id: EntityPatternValue,
    pub var_name: String,
    pub value: PatternItem<V>,
    /// If true, this value does not have to come from the controller but is
    /// taken to hold when a model predicts it for the current state.
    pub assumption: bool,
}

/// `b` is a copy of `a`, its value pattern cloned.
pub open spec fn mk_val_cloned<V: Clone>(a: MkVal<V>, b: MkVal<V>) -> bool {
    &&& b.entity_id == a.entity_id
    &&& b.var_name == a.var_name
    &&& item_cloned(a.value, b.value)
    &&& b.assumption == a.assumption
}

/// The bindings of a variable pattern: the entity's binding first, if the
/// entity is a binding, then those of the value.
pub open spec fn mk_val_bindings<V>(m: MkVal<V>) -> Seq<Seq<char>> {
    match m.entity_id {
        EntityPatternValue::Binding(b) => seq![b@] + item_bindings(m.value),
        EntityPatternValue::EntityId(_) => item_bindings(m.value),
    }
}

impl<V: Clone> Clone for MkVal<V> {
    fn clone(&self) -> (r: Self)
        ensures
            mk_val_cloned(*self, r),
    {
        MkVal {
            entity_id: self.entity_id.clone(),
            var_name: self.var_name.clone(),
            value: self.value.clone(),
            assumption: self.assumption,
        }
    }
}

impl<V> MkVal<V> {
    /// The key of the variable: the entity's id, as `get_id_with_bindings`
    /// gives it, and the variable's name.
    pub fn entity_key<F: Fn(&V) -> String>(&self, bindings: &StrMap<V>, id_of: F) -> (r: Option<
        EntityVariableKey,
    >)
        requires
            self.entity_id is Binding && bindings@.contains_key(self.entity_id->Binding_0@)
                ==> id_of.requires((&bindings@[self.entity_id->Binding_0@],)),
        ensures
            match self.entity_id {
                EntityPatternValue::Binding(b) => if bindings@.contains_key(b@) {
                    r is Some && id_of.ensures((&bindings@[b@],), r->Some_0.entity_id)
                        && r->Some_0.var_name == self.var_name
                } else {
                    r is None
                },
                EntityPatternValue::EntityId(id) => r is Some && r->Some_0.entity_id == id
                    && r->Some_0.var_name == self.var_name,
            },
    {
        match self.entity_id.get_id_with_bindings(bindings, id_of) {
            Some(entity_id) => Some(EntityVariableKey { entity_id, var_name: self.var_name.clone() }),
            None => None,
        }
    }

    /// The bindings of the pattern, the entity's binding first.
    pub fn get_bindings(&self) -> (r: Vec<String>)
        ensures
            strings_view(r@) == mk_val_bindings(*self),
    {
        match &self.entity_id {
            EntityPatternValue::Binding(b) => {
                let mut r = vec![b.clone()];
                let mut rest = self.value.get_bindings();
                let ghost rest_view = rest@;
                r.append(&mut rest);
                assert(strings_view(r@) =~= seq![b@] + strings_view(rest_view));
                r
            },
            EntityPatternValue::EntityId(_) => self.value.get_bindings(),
        }
    }
}

/// Why a command cannot be sent as it stands.
#[derive(Clone, Copy, Debug, PartialEq, Eq, Structural)]
pub enum CommandError {
    /// A binding that one of the parameters needs is not bound.
    ParamBindingsMissing,
    /// The binding that names the command's entity is not bound.
    EntityBindingMissing,
}

/// A command to an entity, with a pattern for its parameters.
#[derive(Debug)]
pub struct Command<V> {
    pub name: String,
    pub entity_id: EntityPatternValue,
    pub params: Vec<PatternItem<V>>,
}

/// The bindings of a command: the entity's binding first, if the entity is
/// a binding, then those of the parameters.
pub open spec fn command_bindings<V>(c: Command<V>) -> Seq<Seq<char>> {
    match c.entity_id {
        EntityPatternValue::Binding(b) => seq![b@] + pattern_bindings(c.params@),
        EntityPatternValue::EntityId(_) => pattern_bindings(c.params@),
    }
}

impl<V: Clone> Clone for Command<V> {
    fn clone(&self) -> (r: Self)
        ensures
            r.name == self.name,
            r.entity_id == self.entity_id,
            items_cloned(self.params@, r.params@),
    {
        Command {
            name: self.name.clone(),
            entity_id: self.entity_id.clone(),
            params: clone_items(&self.params),
        }
    }
}

impl<V: Clone> Command<V> {
    /// The command with its parameters and entity filled in from the
    /// bindings. A parameter that is a binding with no value is left out,
    /// and then the command cannot be sent; nor can it when its entity is a
    /// binding with no value. The entity is the id that `id_of` reads from
    /// the value of its binding.
    pub fn to_runtime_command<M: Fn(Vec<V>) -> V, F: Fn(&V) -> String>(
        &self,
        bindings: &StrMap<V>,
        make_vec: &M,
        id_of: F,
    ) -> (r: Result<RuntimeCommand<V>, CommandError>)
        requires
            forall|i: int|
                0 <= i < self.params@.len() ==> item_no_wildcard(#[trigger] self.params@[i]),
            make_vec_decides(*make_vec),
            clones_equal::<V>(),
            self.entity_id is Binding && bindings@.contains_key(self.entity_id->Binding_0@)
                ==> id_of.requires((&bindings@[self.entity_id->Binding_0@],)),
        ensures
            ({
                let params = bound_values(self.params@, bindings@, *make_vec);
                &&& (r == Err::<RuntimeCommand<V>, CommandError>(CommandError::ParamBindingsMissing)
                    <==> params.len() < self.params@.len())
                &&& (r == Err::<RuntimeCommand<V>, CommandError>(CommandError::EntityBindingMissing)
                    <==> params.len() >= self.params@.len() && self.entity_id is Binding
                    && !bindings@.contains_key(self.entity_id->Binding_0@))
                &&& r is Ok ==> {
                    &&& r->Ok_0.name@ == self.name@
                    &&& r->Ok_0.params@ == params
                    &&& match self.entity_id {
                        EntityPatternValue::Binding(b) => id_of.ensures(
                            (&bindings@[b@],),
                            r->Ok_0.entity_id,
                        ),
                        EntityPatternValue::EntityId(id) => r->Ok_0.entity_id == id,
                    }
                }
            }),
    {
        let params = bind_values_to_pattern(&self.params, bindings, make_vec);
        if params.len() < self.params.len() {
            return Err(CommandError::ParamBindingsMissing);
        }
        match self.entity_id.get_id_with_bindings(bindings, id_of) {
            Some(entity_id) => Ok(RuntimeCommand { name: self.name.clone(), entity_id, params }),
            None => Err(CommandError::EntityBindingMissing),
        }
    }
}

impl<V> Command<V> {
    /// The bindings of the command, the entity's binding first.
    pub fn get_bindings(&self) -> (r: Vec<String>)
        ensures
            strings_view(r@) == command_bindings(*self),
    {
        match &self.entity_id {
            EntityPatternValue::Binding(b) => {
                let mut r = vec![b.clone()];
                let mut rest = bindings_in_pattern(&self.params);
                let ghost rest_view = rest@;
                r.append(&mut rest);
                assert(strings_view(r@) =~= seq![b@] + strings_view(rest_view));
                r
            },
            EntityPatternValue::EntityId(_) => bindings_in_pattern(&self.params),
        }
    }
}

/// A range of times, each end a time, a wildcard or a binding.
#[derive(Debug, PartialEq)]
pub struct TimePatternRange {
    pub from: TimePatternValue,
    pub to: TimePatternValue,
}

impl Clone for TimePatternRange {
    fn clone(&self) -> (r: Self)
        ensures
            r == *self,
    {
        TimePatternRange { from: self.from.clone(), to: self.to.clone() }
    }
}

impl TimePatternRange {
    pub fn new(from: TimePatternValue, to: TimePatternValue) -> (r: TimePatternRange)
        ensures
            r.from == from,
            r.to == to,
    {
        TimePatternRange { from, to }
    }

    /// The range that matches any time.
    pub fn wildcard() -> (r: TimePatternRange)
        ensures
            r.from == TimePatternValue::Any,
            r.to == TimePatternValue::Any,
    {
        TimePatternRange::new(TimePatternValue::Any, TimePatternValue::Any)
    }
}

#[derive(Debug, PartialEq)]
pub enum TimePatternValue {
    Time(Time),
    Any,
    Binding(String),
}

impl Clone for TimePatternValue {
    fn clone(&self) -> (r: Self)
        ensures
            r == *self,
    {
        match self {
            TimePatternValue::Time(t) => TimePatternValue::Time(*t),
            TimePatternValue::Any => TimePatternValue::Any,
            TimePatternValue::Binding(b) => TimePatternValue::Binding(b.clone()),
        }
    }
}

/// The key of one variable of one entity in the system state.
#[derive(Clone, Debug, Hash)]
pub struct EntityVariableKey {
    pub entity_id: String,
    pub var_name: String,
}

impl PartialEq for EntityVariableKey {
    fn eq(&self, other: &Self) -> (r: bool) {
        self.entity_id == other.entity_id && self.var_name == other.var_name
    }
}

impl Eq for EntityVariableKey {}

impl vstd::std_specs::cmp::PartialEqSpecImpl for EntityVariableKey {
    open spec fn obeys_eq_spec() -> bool {
        true
    }

    open spec fn eq_spec(&self, other: &Self) -> bool {
        self.entity_id@ == other.entity_id@ && self.var_name@ == other.var_name@
    }
}

impl EntityVariableKey {
    pub fn new(entity_id: &str, variable: &str) -> (k: EntityVariableKey)
        ensures
            k.entity_id@ == entity_id@,
            k.var_name@ == variable@,
    {
        EntityVariableKey { entity_id: entity_id.to_owned(), var_name: variable.to_owned() }
    }
}

/// A goal: a named target over a time range.
#[derive(Clone, Debug, PartialEq)]
pub struct Goal {
    name: String,
    time_range: TimePatternRange,
}

/// The entity of a pattern: a binding to be filled in, or a known entity.
#[derive(Debug)]
pub enum EntityPatternValue {
    Binding(String),
    EntityId(String),
}

impl Clone for EntityPatternValue {
    fn clone(&self) -> (r: Self)
        ensures
            r == *self,
    {
        match self {
            EntityPatternValue::Binding(b) => EntityPatternValue::Binding(b.clone()),
            EntityPatternValue::EntityId(id) => EntityPatternValue::EntityId(id.clone()),
        }
    }
}

impl PartialEq for EntityPatternValue {
    fn eq(&self, other: &Self) -> (r: bool) {
        match (self, other) {
            (EntityPatternValue::Binding(a), EntityPatternValue::Binding(b)) => *a == *b,
            (EntityPatternValue::EntityId(a), EntityPatternValue::EntityId(b)) => *a == *b,
            _ => false,
        }
    }
}

impl vstd::std_specs::cmp::PartialEqSpecImpl for EntityPatternValue {
    open spec fn obeys_eq_spec() -> bool {
        true
    }

    open spec fn eq_spec(&self, other: &Self) -> bool {
        match (self, other) {
            (EntityPatternValue::Binding(a), EntityPatternValue::Binding(b)) => a@ == b@,
            (EntityPatternValue::EntityId(a), EntityPatternValue::EntityId(b)) => a@ == b@,
            _ => false,
        }
    }
}

/// `r` is the entity `e` with its binding filled in from `m`: a bound
/// binding becomes the entity that `entity_id_of` reads from its value, if
/// it reads one; otherwise the entity stays.
pub open spec fn entity_filled<V, F: Fn(&V) -> Option<String>>(
    e: EntityPatternValue,
    r: EntityPatternValue,
    m: Map<Seq<char>, V>,
    entity_id_of: F,
) -> bool {
    match e {
        EntityPatternValue::Binding(b) => if m.contains_key(b@) {
            ||| r is EntityId && entity_id_of.ensures((&m[b@],), Some(r->EntityId_0))
            ||| r == e && entity_id_of.ensures((&m[b@],), None::<String>)
        } else {
            r == e
        },
        EntityPatternValue::EntityId(_) => r == e,
    }
}

impl EntityPatternValue {
    /// The entity's id: its own, or the one that `id_of` reads from the
    /// value its binding is bound to; `None` when the binding is unbound.
    pub fn get_id_with_bindings<V, F: Fn(&V) -> String>(&self, bindings: &StrMap<V>, id_of: F) -> (r:
        Option<String>)
        requires
            self is Binding && bindings@.contains_key(self->Binding_0@) ==> id_of.requires(
                (&bindings@[self->Binding_0@],),
            ),
        ensures
            match *self {
                EntityPatternValue::Binding(b) => if bindings@.contains_key(b@) {
                    r is Some && id_of.ensures((&bindings@[b@],), r->Some_0)
                } else {
                    r is None
                },
                EntityPatternValue::EntityId(id) => r == Some(id),
            },
    {
        match self {
            EntityPatternValue::Binding(b) => match bindings.get(b) {
                Some(v) => Some(id_of(v)),
                None => None,
            },
            EntityPatternValue::EntityId(id) => Some(id.clone()),
        }
    }

    /// Fills in a bound binding with the entity that `entity_id_of` reads
    /// from its value; an entity it reads none from, or an unbound binding,
    /// stays.
    pub fn insert_binding_value<V, F: Fn(&V) -> Option<String>>(
        &mut self,
        bindings: &StrMap<V>,
        entity_id_of: F,
    )
        requires
            forall|v: &V| entity_id_of.requires((v,)),
        ensures
            entity_filled(*old(self), *final(self), bindings@, entity_id_of),
    {
        let filled = match &*self {
            EntityPatternValue::Binding(b) => match bindings.get(b) {
                Some(v) => entity_id_of(v),
                None => None,
            },
            EntityPatternValue::EntityId(_) => None,
        };
        if let Some(id) = filled {
            *self = EntityPatternValue::EntityId(id);
        }
    }

    /// Whether this is the binding with the given name.
    pub fn is_binding(&self, binding: &str) -> (r: bool)
        ensures
            r == (self is Binding && self->Binding_0@ == binding@),
    {
        match self {
            EntityPatternValue::Binding(b) => *b == binding.to_owned(),
            EntityPatternValue::EntityId(_) => false,
        }
    }
}

/// Declares that a binding stands for an entity of a class.
#[derive(Clone, Debug, PartialEq)]
pub struct EntityDeclaration {
    pub binding: String,
    pub class: String,
}

impl EntityDeclaration {
    pub fn new(binding: &str, class: &str) -> (d: EntityDeclaration)
        ensures
            d.binding@ == binding@,
            d.class@ == class@,
    {
        EntityDeclaration { binding: binding.to_owned(), class: class.to_owned() }
    }
}

} // verus!
