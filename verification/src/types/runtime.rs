//! The system and its state: models, composite states and entities by
//! class; the values of entity variables, the instances of composite
//! states and the time, and how that time is matched against time patterns.

use vstd::prelude::*;
use crate::str_map::{KeyMap, StrMap};
use crate::types::cst::{BoundCst, Cst};
use crate::types::models::Mdl;
use crate::types::{Time, TimePatternRange, TimePatternValue};

verus! {

/// The current state of the system always has an exact time, but during
/// simulation the time can be a range.
#[derive(Clone, Copy, Debug, PartialEq, Eq, Structural)]
pub enum SystemTime {
    Exact(Time),
    Range(Time, Time),
}

/// The first and last time of a system time.
pub open spec fn time_bounds(t: SystemTime) -> (Time, Time) {
    match t {
        SystemTime::Exact(t) => (t, t),
        SystemTime::Range(t1, t2) => (t1, t2),
    }
}

/// The value a time pattern takes as a bound, with `any` standing for the
/// wildcard.
pub open spec fn pattern_bound(p: TimePatternValue, any: Time) -> Time {
    match p {
        TimePatternValue::Time(t) => t,
        TimePatternValue::Any => any,
        TimePatternValue::Binding(_) => any,
    }
}

/// Whether a system time matches a time pattern: the pattern spans the
/// half-open range `from..to`, a wildcard start standing for 0 and a
/// wildcard end for `u64::MAX`, and the system time, from its start to its
/// end, must share at least one time with that range; a part of the
/// ranges overlapping is enough, and an empty range matches nothing.
pub open spec fn time_matches(t: SystemTime, pattern: TimePatternRange) -> bool {
    let (start, end) = time_bounds(t);
    let lo = pattern_bound(pattern.from, 0);
    let hi = pattern_bound(pattern.to, u64::MAX);
    lo < hi && start < hi && lo <= end
}

/// `x` lies both in the system time and in the pattern's range.
pub open spec fn shared_time(t: SystemTime, pattern: TimePatternRange, x: Time) -> bool {
    &&& time_bounds(t).0 <= x <= time_bounds(t).1
    &&& pattern_bound(pattern.from, 0) <= x
    &&& x < pattern_bound(pattern.to, u64::MAX)
}

/// For a system time whose start is not after its end, matching is
/// overlap: it matches exactly when some time `x` lies both in the system
/// time and in the pattern's range.
pub proof fn lemma_time_matches_is_overlap(t: SystemTime, pattern: TimePatternRange)
    requires
        time_bounds(t).0 <= time_bounds(t).1,
    ensures
        time_matches(t, pattern) <==> exists|x: Time| #[trigger] shared_time(t, pattern, x),
{
    let (start, end) = time_bounds(t);
    let lo = pattern_bound(pattern.from, 0);
    let hi = pattern_bound(pattern.to, u64::MAX);
    if time_matches(t, pattern) {
        let x: Time = if start < lo { lo } else { start };
        assert(shared_time(t, pattern, x));
    }
}

/// A pattern with wildcards at both ends matches every system time except
/// one that lies wholly at `u64::MAX`.
pub proof fn lemma_wildcard_pattern_matches(t: SystemTime, pattern: TimePatternRange)
    requires
        pattern.from is Any,
        pattern.to is Any,
    ensures
        time_matches(t, pattern) <==> time_bounds(t).0 < u64::MAX,
{
}

impl SystemTime {
    /// Whether the time falls in the pattern's range `from..to`; when
    /// comparing two ranges, it is a match even if only a part of them
    /// overlaps.
    pub fn matches_pattern(&self, pattern: &TimePatternRange) -> (r: bool)
        requires
            !(pattern.from is Binding),
            !(pattern.to is Binding),
        ensures
            r == time_matches(*self, *pattern),
    {
        let (start, end) = match self {
            SystemTime::Exact(t) => (*t, *t),
            SystemTime::Range(t1, t2) => (*t1, *t2),
        };
        let pattern_start = match &pattern.from {
            TimePatternValue::Time(t) => *t,
            TimePatternValue::Any => 0,
            TimePatternValue::Binding(_) => 0,
        };
        let pattern_end = match &pattern.to {
            TimePatternValue::Time(t) => *t,
            TimePatternValue::Any => u64::MAX,
            TimePatternValue::Binding(_) => u64::MAX,
        };
        pattern_start < pattern_end && start < pattern_end && pattern_start <= end
    }
}

/// A command with its entity and parameters filled in, ready to be sent.
#[derive(Debug)]
pub struct RuntimeCommand<V> {
    pub name: String,
    pub entity_id: String,
    pub params: Vec<V>,
}

/// What the system knows of the world at one time: the value of each entity
/// variable, keyed by entity id and variable name, and the instances of its
/// composite states, by the state's id.
pub struct SystemState<V: Clone> {
    pub variables: KeyMap<(String, String), V>,
    pub instansiated_csts: StrMap<Vec<BoundCst<V>>>,
    pub time: SystemTime,
}

impl<V: Clone> SystemState<V> {
    /// No variables, no instances, at time zero.
    pub fn new() -> (s: SystemState<V>)
        ensures
            s.variables@ == Map::<(Seq<char>, Seq<char>), V>::empty(),
            s.instansiated_csts@ == Map::<Seq<char>, Vec<BoundCst<V>>>::empty(),
            s.time == SystemTime::Exact(0),
    {
        SystemState { variables: KeyMap::new(), instansiated_csts: StrMap::new(), time: SystemTime::Exact(0) }
    }
}

/// The system: its current state, its models and composite states by id,
/// and the ids of the entities of each class.
pub struct System<V: Clone, C> {
    pub current_state: SystemState<V>,
    pub models: StrMap<Mdl<V, C>>,
    pub csts: StrMap<Cst<V>>,
    pub entities_in_classes: StrMap<Vec<String>>,
}

impl<V: Clone, C> System<V, C> {
    /// A system that knows nothing yet.
    pub fn new() -> (s: System<V, C>)
        ensures
            s.current_state.variables@ == Map::<(Seq<char>, Seq<char>), V>::empty(),
            s.current_state.instansiated_csts@ == Map::<Seq<char>, Vec<BoundCst<V>>>::empty(),
            s.current_state.time == SystemTime::Exact(0),
            s.models@ == Map::<Seq<char>, Mdl<V, C>>::empty(),
            s.csts@ == Map::<Seq<char>, Cst<V>>::empty(),
            s.entities_in_classes@ == Map::<Seq<char>, Vec<String>>::empty(),
    {
        System {
            current_state: SystemState::new(),
            models: StrMap::new(),
            csts: StrMap::new(),
            entities_in_classes: StrMap::new(),
        }
    }

    /// Adds an entity to the end of the entities of its class, starting
    /// the class where it has none yet.
    pub fn create_entity(&mut self, entity_id: &str, class: &str)
        ensures
            final(self).entities_in_classes@.dom() == old(self).entities_in_classes@.dom().insert(class@),
            forall|k: Seq<char>|
                k != class@ && #[trigger] old(self).entities_in_classes@.contains_key(k)
                    ==> final(self).entities_in_classes@[k] == old(self).entities_in_classes@[k],
            ({
                let before: Seq<String> = if old(self).entities_in_classes@.contains_key(class@) {
                    old(self).entities_in_classes@[class@]@
                } else {
                    Seq::empty()
                };
                let after = final(self).entities_in_classes@[class@]@;
                &&& after.len() == before.len() + 1
                &&& after.take(before.len() as int) == before
                &&& after.last()@ == entity_id@
            }),
            final(self).current_state == old(self).current_state,
            final(self).models == old(self).models,
            final(self).csts == old(self).csts,
    {
        let key = class.to_owned();
        let mut list: Vec<String> = match self.entities_in_classes.get(&key) {
            Some(l) => l.clone(),
            None => Vec::new(),
        };
        let ghost before = list@;
        list.push(entity_id.to_owned());
        assert(list@.take(before.len() as int) =~= before);
        self.entities_in_classes.insert(key, list);
    }
}

} // verus!
