//! Comparing the entity patterns of two causal models under a mapping from
//! the bindings of the first to those of the second.

use vstd::prelude::*;
use crate::str_map::StrMap;
use crate::types::EntityPatternValue;
use crate::types::pattern::{item_cloned, PatternItem};
use crate::types::models::{Mdl, MdlLeftValue, MdlRightValue};
use crate::runtime::pattern_matching::{eq_answer, eq_answers};

verus! {

/// The binding map with each target binding taken by its characters.
pub open spec fn binding_names(m: Map<Seq<char>, String>) -> Map<Seq<char>, Seq<char>> {
    m.map_values(|s: String| s@)
}

/// Comparing two entity patterns under a binding map: two entity ids must
/// be equal; a binding must agree with the mapping, which learns the pair if
/// the binding is not mapped yet; a binding never matches an entity id.
pub open spec fn entity_bmap_result(
    e1: EntityPatternValue,
    e2: EntityPatternValue,
    m: Map<Seq<char>, Seq<char>>,
) -> (bool, Map<Seq<char>, Seq<char>>) {
    match (e1, e2) {
        (EntityPatternValue::EntityId(id1), EntityPatternValue::EntityId(id2)) => (id1@ == id2@, m),
        (EntityPatternValue::Binding(b1), EntityPatternValue::Binding(b2)) => if m.contains_key(b1@) {
            (m[b1@] == b2@, m)
        } else {
            (true, m.insert(b1@, b2@))
        },
        _ => (false, m),
    }
}

/// Compares two entity patterns: two entity ids must be equal, and two
/// bindings must agree with the mapping, which learns the pair if the first
/// binding is not mapped yet. A binding never matches an entity id.
pub fn compare_entity_patterns_with_binding_map(
    entity1: &EntityPatternValue,
    entity2: &EntityPatternValue,
    binding_map: &mut StrMap<String>,
) -> (r: bool)
    ensures
        match (entity1, entity2) {
            (EntityPatternValue::EntityId(id1), EntityPatternValue::EntityId(id2)) => {
                &&& r == (id1@ == id2@)
                &&& final(binding_map)@ == old(binding_map)@
            },
            (EntityPatternValue::Binding(b1), EntityPatternValue::Binding(b2)) => {
                if old(binding_map)@.contains_key(b1@) {
                    &&& r == (old(binding_map)@[b1@]@ == b2@)
                    &&& final(binding_map)@ == old(binding_map)@
                } else {
                    &&& r
                    &&& binding_names(final(binding_map)@) == binding_names(
                        old(binding_map)@,
                    ).insert(b1@, b2@)
                }
            },
            _ => {
                &&& !r
                &&& final(binding_map)@ == old(binding_map)@
            },
        },
        (r, binding_names(final(binding_map)@)) == entity_bmap_result(
            *entity1,
            *entity2,
            binding_names(old(binding_map)@),
        ),
{
    match (entity1, entity2) {
        (EntityPatternValue::EntityId(id1), EntityPatternValue::EntityId(id2)) => *id1 == *id2,
        (EntityPatternValue::Binding(b1), EntityPatternValue::Binding(b2)) => {
            if let Some(mapped_binding) = binding_map.get(b1) {
                *mapped_binding == *b2
            } else {
                let ghost old_map = binding_map@;
                binding_map.insert(b1.clone(), b2.clone());
                assert(binding_names(binding_map@) =~= binding_names(old_map).insert(b1@, b2@));
                true
            }
        },
        _ => false,
    }
}

/// Whether and with which binding map comparing two items under a binding
/// map ends: values compare as `eq` answers; a binding of the first item
/// must agree with the mapping, which learns the pair if the binding is not
/// mapped yet; nested patterns of the same length compare item by item;
/// two wildcards match; anything else does not.
pub open spec fn item_bmap_result<V, E: Fn(&V, &V) -> bool>(
    p1: PatternItem<V>,
    p2: PatternItem<V>,
    m: Map<Seq<char>, Seq<char>>,
    eq: E,
) -> (bool, Map<Seq<char>, Seq<char>>)
    decreases p1, 1int,
{
    match (p1, p2) {
        (PatternItem::Value(v1), PatternItem::Value(v2)) => (eq_answer(eq, v1, v2), m),
        (PatternItem::Binding(b1), PatternItem::Binding(b2)) => if m.contains_key(b1@) {
            (m[b1@] == b2@, m)
        } else {
            (true, m.insert(b1@, b2@))
        },
        (PatternItem::Vec(v1), PatternItem::Vec(v2)) => if v1@.len() != v2@.len() {
            (false, m)
        } else {
            proof {
                assert(decreases_to!(v1 => v1@));
            }
            seq_bmap_result(v1@, v2@, v1@.len() as int, m, eq)
        },
        (PatternItem::Any, PatternItem::Any) => (true, m),
        _ => (false, m),
    }
}

/// Comparing the first `n` items in order under a binding map, stopping at
/// the first that does not match.
pub open spec fn seq_bmap_result<V, E: Fn(&V, &V) -> bool>(
    s1: Seq<PatternItem<V>>,
    s2: Seq<PatternItem<V>>,
    n: int,
    m: Map<Seq<char>, Seq<char>>,
    eq: E,
) -> (bool, Map<Seq<char>, Seq<char>>)
    decreases s1, n,
{
    if n <= 0 || n > s1.len() || n > s2.len() {
        (true, m)
    } else {
        let prev = seq_bmap_result(s1, s2, n - 1, m, eq);
        if !prev.0 {
            prev
        } else {
            item_bmap_result(s1[n - 1], s2[n - 1], prev.1, eq)
        }
    }
}

/// Comparing two patterns under a binding map: of the same length, item by
/// item.
pub open spec fn patterns_bmap_result<V, E: Fn(&V, &V) -> bool>(
    s1: Seq<PatternItem<V>>,
    s2: Seq<PatternItem<V>>,
    m: Map<Seq<char>, Seq<char>>,
    eq: E,
) -> (bool, Map<Seq<char>, Seq<char>>) {
    if s1.len() != s2.len() {
        (false, m)
    } else {
        seq_bmap_result(s1, s2, s1.len() as int, m, eq)
    }
}

/// Compares two patterns of the same length item by item under the binding
/// map, which learns the pairs of bindings not mapped yet.
pub fn compare_patterns_with_binding_map<V, E: Fn(&V, &V) -> bool>(
    pattern1: &Vec<PatternItem<V>>,
    pattern2: &Vec<PatternItem<V>>,
    binding_map: &mut StrMap<String>,
    eq: &E,
) -> (r: bool)
    requires
        eq_answers(*eq),
    ensures
        (r, binding_names(final(binding_map)@)) == patterns_bmap_result(
            pattern1@,
            pattern2@,
            binding_names(old(binding_map)@),
            *eq,
        ),
    decreases pattern1,
{
    if pattern1.len() != pattern2.len() {
        return false;
    }
    let ghost m0 = binding_names(binding_map@);
    let mut i: usize = 0;
    while i < pattern1.len()
        invariant
            i <= pattern1.len(),
            pattern1@.len() == pattern2@.len(),
            eq_answers(*eq),
            m0 == binding_names(old(binding_map)@),
            seq_bmap_result(pattern1@, pattern2@, i as int, m0, *eq) == (
                true,
                binding_names(binding_map@),
            ),
        decreases pattern1.len() - i,
    {
        proof {
            assert(decreases_to!(pattern1 => pattern1[i as int]));
        }
        let ghost before = binding_names(binding_map@);
        if !compare_pattern_items_with_binding_map(&pattern1[i], &pattern2[i], binding_map, eq) {
            proof {
                assert(seq_bmap_result(pattern1@, pattern2@, i + 1, m0, *eq) == item_bmap_result(
                    pattern1@[i as int],
                    pattern2@[i as int],
                    before,
                    *eq,
                ));
                lemma_seq_bmap_stops(pattern1@, pattern2@, i + 1, pattern1@.len() as int, m0, *eq);
            }
            return false;
        }
        i = i + 1;
    }
    true
}

/// Once a comparison fails, comparing more items changes nothing.
proof fn lemma_seq_bmap_stops<V, E: Fn(&V, &V) -> bool>(
    s1: Seq<PatternItem<V>>,
    s2: Seq<PatternItem<V>>,
    k: int,
    n: int,
    m: Map<Seq<char>, Seq<char>>,
    eq: E,
)
    requires
        0 < k <= n <= s1.len(),
        n <= s2.len(),
        !seq_bmap_result(s1, s2, k, m, eq).0,
    ensures
        seq_bmap_result(s1, s2, n, m, eq) == seq_bmap_result(s1, s2, k, m, eq),
    decreases n - k,
{
    if k < n {
        lemma_seq_bmap_stops(s1, s2, k, n - 1, m, eq);
    }
}

/// Compares two pattern items under the binding map, which learns the pairs
/// of bindings not mapped yet.
pub fn compare_pattern_items_with_binding_map<V, E: Fn(&V, &V) -> bool>(
    item1: &PatternItem<V>,
    item2: &PatternItem<V>,
    binding_map: &mut StrMap<String>,
    eq: &E,
) -> (r: bool)
    requires
        eq_answers(*eq),
    ensures
        (r, binding_names(final(binding_map)@)) == item_bmap_result(
            *item1,
            *item2,
            binding_names(old(binding_map)@),
            *eq,
        ),
    decreases item1,
{
    match (item1, item2) {
        (PatternItem::Value(v1), PatternItem::Value(v2)) => {
            assert(eq.requires((v1, v2)));
            eq(v1, v2)
        },
        (PatternItem::Binding(b1), PatternItem::Binding(b2)) => {
            if let Some(mapped_binding) = binding_map.get(b1) {
                *mapped_binding == *b2
            } else {
                let ghost before = binding_map@;
                binding_map.insert(b1.clone(), b2.clone());
                assert(binding_names(binding_map@) =~= binding_names(before).insert(b1@, b2@));
                true
            }
        },
        (PatternItem::Vec(v1), PatternItem::Vec(v2)) => {
            if v1.len() != v2.len() {
                return false;
            }
            proof {
                assert(decreases_to!(*item1 => (*item1)->Vec_0));
            }
            compare_patterns_with_binding_map(v1, v2, binding_map, eq)
        },
        (PatternItem::Any, PatternItem::Any) => true,
        _ => false,
    }
}

/// Some binding is mapped to `k`.
pub open spec fn is_mapped_to(names: Map<Seq<char>, Seq<char>>, k: Seq<char>) -> bool {
    exists|x: Seq<char>| names.contains_key(x) && #[trigger] names[x] == k
}

/// The first place from `j` on where the second guard bindings hold a value
/// that `eq` matches with `v` under a binding not yet mapped to.
pub open spec fn first_free_match<V, E: Fn(&V, &V) -> bool>(
    e2: Seq<(Seq<char>, V)>,
    v: V,
    names: Map<Seq<char>, Seq<char>>,
    eq: E,
    j: int,
) -> Option<int>
    decreases e2.len() - j,
{
    if j < 0 || j >= e2.len() {
        None
    } else if eq_answer(eq, v, e2[j].1) && !is_mapped_to(names, e2[j].0) {
        Some(j)
    } else {
        first_free_match(e2, v, names, eq, j + 1)
    }
}

/// A place found is in range.
proof fn lemma_first_free_match_range<V, E: Fn(&V, &V) -> bool>(
    e2: Seq<(Seq<char>, V)>,
    v: V,
    names: Map<Seq<char>, Seq<char>>,
    eq: E,
    j: int,
)
    ensures
        first_free_match(e2, v, names, eq, j) matches Some(k) ==> j <= k < e2.len(),
    decreases e2.len() - j,
{
    if 0 <= j < e2.len() {
        lemma_first_free_match_range(e2, v, names, eq, j + 1);
    }
}

/// Comparing one guard binding of the first model: a mapped binding must
/// have a value in the second model's guards that `eq` matches; an unmapped
/// one is mapped to the first binding of the second model's guards whose
/// value matches and that nothing is mapped to yet, if there is one.
pub open spec fn guard_step<V, E: Fn(&V, &V) -> bool>(
    entry: (Seq<char>, V),
    b2: Map<Seq<char>, V>,
    e2: Seq<(Seq<char>, V)>,
    names: Map<Seq<char>, Seq<char>>,
    eq: E,
) -> (bool, Map<Seq<char>, Seq<char>>) {
    if names.contains_key(entry.0) {
        if b2.contains_key(names[entry.0]) {
            (eq_answer(eq, entry.1, b2[names[entry.0]]), names)
        } else {
            (false, names)
        }
    } else {
        match first_free_match(e2, entry.1, names, eq, 0) {
            Some(j) => (true, names.insert(entry.0, e2[j].0)),
            None => (false, names),
        }
    }
}

/// Comparing the first `n` guard bindings of the first model in order,
/// stopping at the first that fails.
pub open spec fn guards_result<V, E: Fn(&V, &V) -> bool>(
    e1: Seq<(Seq<char>, V)>,
    b2: Map<Seq<char>, V>,
    e2: Seq<(Seq<char>, V)>,
    n: int,
    names: Map<Seq<char>, Seq<char>>,
    eq: E,
) -> (bool, Map<Seq<char>, Seq<char>>)
    decreases n,
{
    if n <= 0 || n > e1.len() {
        (true, names)
    } else {
        let prev = guards_result(e1, b2, e2, n - 1, names, eq);
        if !prev.0 {
            prev
        } else {
            guard_step(e1[n - 1], b2, e2, prev.1, eq)
        }
    }
}

/// Whether some binding of the map is mapped to `name`.
fn maps_to(binding_map: &StrMap<String>, name: &String) -> (r: bool)
    ensures
        r == is_mapped_to(binding_names(binding_map@), name@),
{
    let ghost names = binding_names(binding_map@);
    let mut i: usize = 0;
    while i < binding_map.len()
        invariant
            i <= binding_map.entries_view().len(),
            names == binding_names(binding_map@),
            forall|j: int| 0 <= j < i ==> (#[trigger] binding_map.entries_view()[j]).1@ != name@,
        decreases binding_map.entries_view().len() - i,
    {
        let (k, v) = binding_map.entry_at(i);
        if *v == *name {
            assert(names.contains_key(k@) && names[k@] == name@);
            return true;
        }
        i = i + 1;
    }
    let _ = binding_map.len();
    proof {
        if is_mapped_to(names, name@) {
            let x = choose|x: Seq<char>| names.contains_key(x) && names[x] == name@;
            crate::str_map::lemma_entries_map_contains(binding_map.entries_view(), x);
            let j = choose|j: int|
                0 <= j < binding_map.entries_view().len()
                    && #[trigger] binding_map.entries_view()[j].0 == x;
            crate::str_map::lemma_entries_map_index(binding_map.entries_view(), j);
        }
    }
    false
}

/// The first place in the second guard bindings whose value `eq` matches
/// with `value` under a binding nothing is mapped to yet.
fn find_free_match<V, E: Fn(&V, &V) -> bool>(
    bindings2: &StrMap<V>,
    value: &V,
    binding_map: &StrMap<String>,
    eq: &E,
) -> (r: Option<usize>)
    requires
        eq_answers(*eq),
    ensures
        match r {
            Some(j) => first_free_match(
                bindings2.entries_view(),
                *value,
                binding_names(binding_map@),
                *eq,
                0,
            ) == Some(j as int),
            None => first_free_match(
                bindings2.entries_view(),
                *value,
                binding_names(binding_map@),
                *eq,
                0,
            ) is None,
        },
{
    let ghost e2 = bindings2.entries_view();
    let ghost names = binding_names(binding_map@);
    let mut j: usize = 0;
    while j < bindings2.len()
        invariant
            j <= e2.len(),
            e2 == bindings2.entries_view(),
            names == binding_names(binding_map@),
            eq_answers(*eq),
            first_free_match(e2, *value, names, *eq, 0) == first_free_match(
                e2,
                *value,
                names,
                *eq,
                j as int,
            ),
        decreases e2.len() - j,
    {
        let (key2, value2) = bindings2.entry_at(j);
        assert(eq.requires((value, value2)));
        let same = eq(value, value2);
        assert(same == eq_answer(*eq, *value, *value2));
        if same && !maps_to(binding_map, key2) {
            return Some(j);
        }
        j = j + 1;
    }
    None
}

/// Compares the guard bindings of two models under the binding map: the
/// same number of them, and each of the first model's, in order, matching a
/// value of the second's as `guard_step` says.
pub fn compare_fwd_guard_bindings<V, E: Fn(&V, &V) -> bool>(
    bindings1: &StrMap<V>,
    bindings2: &StrMap<V>,
    binding_map: &mut StrMap<String>,
    eq: &E,
) -> (r: bool)
    requires
        eq_answers(*eq),
    ensures
        bindings1.entries_view().len() != bindings2.entries_view().len() ==> !r && final(binding_map)@
            == old(binding_map)@,
        bindings1.entries_view().len() == bindings2.entries_view().len() ==> (
        r,
        binding_names(final(binding_map)@),
        ) == guards_result(
            bindings1.entries_view(),
            bindings2@,
            bindings2.entries_view(),
            bindings1.entries_view().len() as int,
            binding_names(old(binding_map)@),
            *eq,
        ),
{
    if bindings1.len() != bindings2.len() {
        return false;
    }
    let ghost e1 = bindings1.entries_view();
    let ghost e2 = bindings2.entries_view();
    let ghost n0 = binding_names(binding_map@);
    let mut i: usize = 0;
    while i < bindings1.len()
        invariant
            i <= e1.len(),
            e1.len() == e2.len(),
            e1 == bindings1.entries_view(),
            e2 == bindings2.entries_view(),
            eq_answers(*eq),
            n0 == binding_names(old(binding_map)@),
            guards_result(e1, bindings2@, e2, i as int, n0, *eq) == (true, binding_names(binding_map@)),
        decreases e1.len() - i,
    {
        let (key1, value1) = bindings1.entry_at(i);
        let ghost names = binding_names(binding_map@);
        let ghost step = guard_step(e1[i as int], bindings2@, e2, names, *eq);
        let ok = match binding_map.get(key1) {
            Some(mapped_key) => match bindings2.get(mapped_key) {
                Some(value2) => {
                    assert(eq.requires((value1, value2)));
                    let same = eq(value1, value2);
                    assert(same == eq_answer(*eq, *value1, *value2));
                    same
                },
                None => false,
            },
            None => match find_free_match(bindings2, value1, binding_map, eq) {
                Some(j) => {
                    proof {
                        lemma_first_free_match_range(e2, e1[i as int].1, names, *eq, 0);
                    }
                    let (key2, _) = bindings2.entry_at(j);
                    binding_map.insert(key1.clone(), key2.clone());
                    assert(binding_names(binding_map@) =~= names.insert(
                        e1[i as int].0,
                        e2[j as int].0,
                    ));
                    true
                },
                None => false,
            },
        };
        assert((ok, binding_names(binding_map@)) == step);
        if !ok {
            proof {
                lemma_guards_stop(e1, bindings2@, e2, i + 1, e1.len() as int, n0, *eq);
            }
            return false;
        }
        i = i + 1;
    }
    true
}

/// Once comparing guard bindings fails, comparing more changes nothing.
proof fn lemma_guards_stop<V, E: Fn(&V, &V) -> bool>(
    e1: Seq<(Seq<char>, V)>,
    b2: Map<Seq<char>, V>,
    e2: Seq<(Seq<char>, V)>,
    k: int,
    n: int,
    names: Map<Seq<char>, Seq<char>>,
    eq: E,
)
    requires
        0 < k <= n <= e1.len(),
        !guards_result(e1, b2, e2, k, names, eq).0,
    ensures
        guards_result(e1, b2, e2, n, names, eq) == guards_result(e1, b2, e2, k, names, eq),
    decreases n - k,
{
    if k < n {
        lemma_guards_stop(e1, b2, e2, k, n - 1, names, eq);
    }
}

/// Comparing the left-hand sides of two causal models under a binding map:
/// two instantiated models of the same model with parameters and guard
/// bindings that agree, or two commands of the same name with entities and
/// parameters that agree.
pub open spec fn lhs_bmap_result<V: Clone, E: Fn(&V, &V) -> bool>(
    l1: MdlLeftValue<V>,
    l2: MdlLeftValue<V>,
    m: Map<Seq<char>, Seq<char>>,
    eq: E,
) -> (bool, Map<Seq<char>, Seq<char>>) {
    match (l1, l2) {
        (MdlLeftValue::IMdl(i1), MdlLeftValue::IMdl(i2)) => if i1.model_id@ != i2.model_id@ {
            (false, m)
        } else {
            let p = patterns_bmap_result(i1.params@, i2.params@, m, eq);
            if !p.0 {
                p
            } else if i1.fwd_guard_bindings.entries_view().len()
                != i2.fwd_guard_bindings.entries_view().len() {
                (false, p.1)
            } else {
                guards_result(
                    i1.fwd_guard_bindings.entries_view(),
                    i2.fwd_guard_bindings@,
                    i2.fwd_guard_bindings.entries_view(),
                    i1.fwd_guard_bindings.entries_view().len() as int,
                    p.1,
                    eq,
                )
            }
        },
        (MdlLeftValue::Command(c1), MdlLeftValue::Command(c2)) => if c1.name@ != c2.name@ {
            (false, m)
        } else {
            let e = entity_bmap_result(c1.entity_id, c2.entity_id, m);
            if !e.0 {
                e
            } else {
                patterns_bmap_result(c1.params@, c2.params@, e.1, eq)
            }
        },
        _ => (false, m),
    }
}

/// Comparing the right-hand sides of two causal models under a binding map:
/// two values of the same variable whose entities and values agree.
pub open spec fn rhs_bmap_result<V: Clone, E: Fn(&V, &V) -> bool>(
    r1: MdlRightValue<V>,
    r2: MdlRightValue<V>,
    m: Map<Seq<char>, Seq<char>>,
    eq: E,
) -> bool {
    match (r1, r2) {
        (MdlRightValue::MkVal(a), MdlRightValue::MkVal(b)) => {
            &&& a.var_name@ == b.var_name@
            &&& entity_bmap_result(a.entity_id, b.entity_id, m).0
            &&& item_bmap_result(
                a.value,
                b.value,
                entity_bmap_result(a.entity_id, b.entity_id, m).1,
                eq,
            ).0
        },
        _ => false,
    }
}

/// Two causal models are the same up to a consistent renaming of their
/// bindings: their left-hand sides agree under a binding map built from
/// empty, and their right-hand sides agree under the map that comparison
/// built.
pub open spec fn models_agree<V: Clone, C, E: Fn(&V, &V) -> bool>(
    model1: Mdl<V, C>,
    model2: Mdl<V, C>,
    eq: E,
) -> bool {
    let l = lhs_bmap_result(
        model1.left.pattern,
        model2.left.pattern,
        Map::<Seq<char>, Seq<char>>::empty(),
        eq,
    );
    l.0 && rhs_bmap_result(model1.right.pattern, model2.right.pattern, l.1, eq)
}

/// Two causal models that agree up to a renaming of their bindings predict
/// the same variable: both right-hand sides are variable patterns, with the
/// same variable name, and both left-hand sides are of the same kind (two
/// commands of the same name, or two instantiations of the same model).
pub proof fn lemma_agreeing_models_predict_the_same_variable<V: Clone, C, E: Fn(&V, &V) -> bool>(
    model1: Mdl<V, C>,
    model2: Mdl<V, C>,
    eq: E,
)
    requires
        models_agree(model1, model2, eq),
    ensures
        model1.right.pattern is MkVal,
        model2.right.pattern is MkVal,
        model1.right.pattern->MkVal_0.var_name@ == model2.right.pattern->MkVal_0.var_name@,
        model1.left.pattern is Command ==> model2.left.pattern is Command
            && model1.left.pattern->Command_0.name@ == model2.left.pattern->Command_0.name@,
        model1.left.pattern is IMdl ==> model2.left.pattern is IMdl
            && model1.left.pattern->IMdl_0.model_id@ == model2.left.pattern->IMdl_0.model_id@,
        !(model1.left.pattern is ICst) && !(model1.left.pattern is MkVal),
{
}

/// Whether two causal models are the same up to a consistent renaming of
/// their bindings.
pub fn compare_casual_models_with_bindings<V: Clone, C, E: Fn(&V, &V) -> bool>(
    model1: &Mdl<V, C>,
    model2: &Mdl<V, C>,
    eq: &E,
) -> (r: bool)
    requires
        eq_answers(*eq),
    ensures
        r == models_agree(*model1, *model2, *eq),
{
    let mut binding_map: StrMap<String> = StrMap::new();
    assert(binding_names(binding_map@) =~= Map::<Seq<char>, Seq<char>>::empty());
    let lhs_equal = match (&model1.left.pattern, &model2.left.pattern) {
        (MdlLeftValue::IMdl(imdl1), MdlLeftValue::IMdl(imdl2)) => {
            if imdl1.model_id != imdl2.model_id {
                return false;
            }
            if !compare_patterns_with_binding_map(
                &imdl1.params,
                &imdl2.params,
                &mut binding_map,
                eq,
            ) {
                return false;
            }
            compare_fwd_guard_bindings(
                &imdl1.fwd_guard_bindings,
                &imdl2.fwd_guard_bindings,
                &mut binding_map,
                eq,
            )
        },
        (MdlLeftValue::Command(cmd1), MdlLeftValue::Command(cmd2)) => {
            if cmd1.name != cmd2.name {
                return false;
            }
            if !compare_entity_patterns_with_binding_map(
                &cmd1.entity_id,
                &cmd2.entity_id,
                &mut binding_map,
            ) {
                return false;
            }
            compare_patterns_with_binding_map(&cmd1.params, &cmd2.params, &mut binding_map, eq)
        },
        _ => false,
    };
    if !lhs_equal {
        return false;
    }
    match (&model1.right.pattern, &model2.right.pattern) {
        (MdlRightValue::MkVal(mk_val1), MdlRightValue::MkVal(mk_val2)) => {
            if mk_val1.var_name != mk_val2.var_name {
                return false;
            }
            if !compare_entity_patterns_with_binding_map(
                &mk_val1.entity_id,
                &mk_val2.entity_id,
                &mut binding_map,
            ) {
                return false;
            }
            compare_pattern_items_with_binding_map(&mk_val1.value, &mk_val2.value, &mut binding_map, eq)
        },
        _ => false,
    }
}

/// Every binding of the map is mapped to itself.
pub open spec fn maps_to_itself(m: Map<Seq<char>, Seq<char>>) -> bool {
    forall|k: Seq<char>| #[trigger] m.contains_key(k) ==> m[k] == k
}

/// An item compared with itself, under a map of bindings to themselves,
/// agrees and keeps the map so.
pub proof fn lemma_item_self_agrees<V, E: Fn(&V, &V) -> bool>(
    p: PatternItem<V>,
    m: Map<Seq<char>, Seq<char>>,
    eq: E,
)
    requires
        maps_to_itself(m),
        forall|v: V| #[trigger] eq_answer(eq, v, v),
    ensures
        item_bmap_result(p, p, m, eq).0,
        maps_to_itself(item_bmap_result(p, p, m, eq).1),
    decreases p, 1int,
{
    match p {
        PatternItem::Vec(v) => {
            assert(decreases_to!(p => v));
            assert(decreases_to!(v => v@));
            lemma_seq_self_agrees(v@, v@.len() as int, m, eq);
        },
        PatternItem::Value(v) => {
            assert(eq_answer(eq, v, v));
        },
        _ => {},
    }
}

/// The first `n` items of a pattern compared with themselves, under a map
/// of bindings to themselves, agree and keep the map so.
pub proof fn lemma_seq_self_agrees<V, E: Fn(&V, &V) -> bool>(
    s: Seq<PatternItem<V>>,
    n: int,
    m: Map<Seq<char>, Seq<char>>,
    eq: E,
)
    requires
        maps_to_itself(m),
        forall|v: V| #[trigger] eq_answer(eq, v, v),
    ensures
        seq_bmap_result(s, s, n, m, eq).0,
        maps_to_itself(seq_bmap_result(s, s, n, m, eq).1),
    decreases s, n,
{
    if 0 < n <= s.len() {
        lemma_seq_self_agrees(s, n - 1, m, eq);
        let prev = seq_bmap_result(s, s, n - 1, m, eq);
        assert(decreases_to!(s => s[n - 1]));
        lemma_item_self_agrees(s[n - 1], prev.1, eq);
    }
}

/// `eq` answers every value equal to each of its clones.
pub open spec fn clones_compare_equal<V: Clone, E: Fn(&V, &V) -> bool>(eq: E) -> bool {
    forall|v: V, w: V| #[trigger] cloned(v, w) ==> eq_answer(eq, v, w)
}

/// An item compared with a copy of itself, under a map of bindings to
/// themselves, agrees and keeps the map so.
pub proof fn lemma_item_clone_agrees<V: Clone, E: Fn(&V, &V) -> bool>(
    p: PatternItem<V>,
    q: PatternItem<V>,
    m: Map<Seq<char>, Seq<char>>,
    eq: E,
)
    requires
        item_cloned(p, q),
        maps_to_itself(m),
        clones_compare_equal(eq),
    ensures
        item_bmap_result(p, q, m, eq).0,
        maps_to_itself(item_bmap_result(p, q, m, eq).1),
    decreases p, 1int,
{
    match p {
        PatternItem::Vec(v) => {
            let w = q->Vec_0;
            assert(decreases_to!(p => v));
            assert(decreases_to!(v => v@));
            lemma_seq_clone_agrees(v@, w@, v@.len() as int, m, eq);
        },
        PatternItem::Value(v) => {
            assert(cloned(v, q->Value_0));
        },
        _ => {},
    }
}

/// The first `n` items of a pattern compared with a copy of it, under a
/// map of bindings to themselves, agree and keep the map so.
pub proof fn lemma_seq_clone_agrees<V: Clone, E: Fn(&V, &V) -> bool>(
    s: Seq<PatternItem<V>>,
    t: Seq<PatternItem<V>>,
    n: int,
    m: Map<Seq<char>, Seq<char>>,
    eq: E,
)
    requires
        t.len() == s.len(),
        forall|i: int| 0 <= i < s.len() ==> item_cloned(#[trigger] s[i], t[i]),
        maps_to_itself(m),
        clones_compare_equal(eq),
    ensures
        seq_bmap_result(s, t, n, m, eq).0,
        maps_to_itself(seq_bmap_result(s, t, n, m, eq).1),
    decreases s, n,
{
    if 0 < n <= s.len() {
        lemma_seq_clone_agrees(s, t, n - 1, m, eq);
        let prev = seq_bmap_result(s, t, n - 1, m, eq);
        assert(decreases_to!(s => s[n - 1]));
        assert(item_cloned(s[n - 1], t[n - 1]));
        lemma_item_clone_agrees(s[n - 1], t[n - 1], prev.1, eq);
    }
}

/// `copy` copies the sides of the causal model `model`, whose left-hand side
/// is a command: the same command name and entity, the parameters and the
/// right-hand side's value cloned, the rest of the right-hand side the same
/// (what cloning the sides of such a model gives).
pub open spec fn command_model_copy<V: Clone, C>(model: Mdl<V, C>, copy: Mdl<V, C>) -> bool {
    &&& model.left.pattern is Command
    &&& copy.left.pattern is Command
    &&& copy.left.pattern->Command_0.name == model.left.pattern->Command_0.name
    &&& copy.left.pattern->Command_0.entity_id == model.left.pattern->Command_0.entity_id
    &&& crate::types::pattern::items_cloned(
        model.left.pattern->Command_0.params@,
        copy.left.pattern->Command_0.params@,
    )
    &&& model.right.pattern is MkVal
    &&& copy.right.pattern is MkVal
    &&& crate::types::mk_val_cloned(model.right.pattern->MkVal_0, copy.right.pattern->MkVal_0)
}

/// A causal model whose left-hand side is a command agrees with any copy
/// of itself under the identity renaming, where `eq` answers each value
/// equal to its clones.
pub proof fn lemma_command_model_agrees_with_copy<V: Clone, C, E: Fn(&V, &V) -> bool>(
    model: Mdl<V, C>,
    copy: Mdl<V, C>,
    eq: E,
)
    requires
        command_model_copy(model, copy),
        clones_compare_equal(eq),
    ensures
        models_agree(model, copy, eq),
{
    let c = model.left.pattern->Command_0;
    let d = copy.left.pattern->Command_0;
    let m0 = Map::<Seq<char>, Seq<char>>::empty();
    let e = entity_bmap_result(c.entity_id, d.entity_id, m0);
    assert(e.0 && maps_to_itself(e.1));
    lemma_seq_clone_agrees(c.params@, d.params@, c.params@.len() as int, e.1, eq);
    let l = lhs_bmap_result(model.left.pattern, copy.left.pattern, m0, eq);
    assert(l.0 && maps_to_itself(l.1));
    let a = model.right.pattern->MkVal_0;
    let b = copy.right.pattern->MkVal_0;
    let e2 = entity_bmap_result(a.entity_id, b.entity_id, l.1);
    assert(e2.0 && maps_to_itself(e2.1));
    lemma_item_clone_agrees(a.value, b.value, e2.1, eq);
}

/// A causal model whose left-hand side is a command agrees with itself
/// under the identity renaming, where `eq` answers every value equal to
/// itself.
pub proof fn lemma_command_model_agrees_with_itself<V: Clone, C, E: Fn(&V, &V) -> bool>(
    model: Mdl<V, C>,
    eq: E,
)
    requires
        model.left.pattern is Command,
        model.right.pattern is MkVal,
        forall|v: V| #[trigger] eq_answer(eq, v, v),
    ensures
        models_agree(model, model, eq),
{
    let c = model.left.pattern->Command_0;
    let m0 = Map::<Seq<char>, Seq<char>>::empty();
    let e = entity_bmap_result(c.entity_id, c.entity_id, m0);
    assert(e.0 && maps_to_itself(e.1));
    lemma_seq_self_agrees(c.params@, c.params@.len() as int, e.1, eq);
    let l = lhs_bmap_result(model.left.pattern, model.left.pattern, m0, eq);
    assert(l.0 && maps_to_itself(l.1));
    let a = model.right.pattern->MkVal_0;
    let e2 = entity_bmap_result(a.entity_id, a.entity_id, l.1);
    assert(e2.0 && maps_to_itself(e2.1));
    lemma_item_self_agrees(a.value, e2.1, eq);
}

/// Under a map of bindings to themselves, the first free match of the
/// value of entry `i` is entry `i` itself, where `eq` answers values equal
/// only when they are and no two entries hold the same value, and the
/// entry's name is not mapped yet.
proof fn lemma_first_free_match_self<V, E: Fn(&V, &V) -> bool>(
    e: Seq<(Seq<char>, V)>,
    names: Map<Seq<char>, Seq<char>>,
    eq: E,
    i: int,
    j: int,
)
    requires
        0 <= j <= i < e.len(),
        maps_to_itself(names),
        !names.contains_key(e[i].0),
        forall|v: V| #[trigger] eq_answer(eq, v, v),
        forall|a: V, b: V| #[trigger] eq_answer(eq, a, b) ==> a == b,
        forall|x: int, y: int| 0 <= x < y < e.len() ==> (#[trigger] e[x]).1 != (#[trigger] e[y]).1,
    ensures
        first_free_match(e, e[i].1, names, eq, j) == Some(i),
    decreases e.len() - j,
{
    if j < i {
        if eq_answer(eq, e[i].1, e[j].1) {
            assert(e[j].1 == e[i].1);
        }
        lemma_first_free_match_self(e, names, eq, i, j + 1);
    } else {
        assert(eq_answer(eq, e[i].1, e[i].1));
        if is_mapped_to(names, e[i].0) {
            let x = choose|x: Seq<char>| names.contains_key(x) && #[trigger] names[x] == e[i].0;
            assert(names[x] == x);
        }
    }
}

/// The first `n` guard bindings compared with themselves, under a map of
/// bindings to themselves, agree and keep the map so.
proof fn lemma_guards_self_agree<V, E: Fn(&V, &V) -> bool>(
    e: Seq<(Seq<char>, V)>,
    n: int,
    names: Map<Seq<char>, Seq<char>>,
    eq: E,
)
    requires
        0 <= n <= e.len(),
        maps_to_itself(names),
        crate::str_map::keys_distinct(e),
        forall|v: V| #[trigger] eq_answer(eq, v, v),
        forall|a: V, b: V| #[trigger] eq_answer(eq, a, b) ==> a == b,
        forall|x: int, y: int| 0 <= x < y < e.len() ==> (#[trigger] e[x]).1 != (#[trigger] e[y]).1,
    ensures
        guards_result(e, crate::str_map::entries_map(e), e, n, names, eq).0,
        maps_to_itself(guards_result(e, crate::str_map::entries_map(e), e, n, names, eq).1),
    decreases n,
{
    if n > 0 {
        lemma_guards_self_agree(e, n - 1, names, eq);
        let prev = guards_result(e, crate::str_map::entries_map(e), e, n - 1, names, eq).1;
        let entry = e[n - 1];
        crate::str_map::lemma_entries_map_index(e, n - 1);
        if prev.contains_key(entry.0) {
            assert(prev[entry.0] == entry.0);
            assert(eq_answer(eq, entry.1, entry.1));
        } else {
            lemma_first_free_match_self(e, prev, eq, n - 1, 0);
        }
    }
}

/// A causal model whose left-hand side is an instantiated model agrees with
/// itself under the identity renaming, where `eq` answers values equal
/// exactly when they are and no two guard bindings hold the same value.
pub proof fn lemma_instantiated_model_agrees_with_itself<V: Clone, C, E: Fn(&V, &V) -> bool>(
    model: Mdl<V, C>,
    eq: E,
)
    requires
        model.left.pattern is IMdl,
        model.right.pattern is MkVal,
        crate::str_map::keys_distinct(model.left.pattern->IMdl_0.fwd_guard_bindings.entries_view()),
        forall|x: int, y: int|
            0 <= x < y < model.left.pattern->IMdl_0.fwd_guard_bindings.entries_view().len() ==> (
            #[trigger] model.left.pattern->IMdl_0.fwd_guard_bindings.entries_view()[x]).1 != (
            #[trigger] model.left.pattern->IMdl_0.fwd_guard_bindings.entries_view()[y]).1,
        forall|v: V| #[trigger] eq_answer(eq, v, v),
        forall|a: V, b: V| #[trigger] eq_answer(eq, a, b) ==> a == b,
    ensures
        models_agree(model, model, eq),
{
    let i = model.left.pattern->IMdl_0;
    let m0 = Map::<Seq<char>, Seq<char>>::empty();
    lemma_seq_self_agrees(i.params@, i.params@.len() as int, m0, eq);
    let p = patterns_bmap_result(i.params@, i.params@, m0, eq);
    let e = i.fwd_guard_bindings.entries_view();
    lemma_guards_self_agree(e, e.len() as int, p.1, eq);
    let l = lhs_bmap_result(model.left.pattern, model.left.pattern, m0, eq);
    assert(l.0 && maps_to_itself(l.1));
    let a = model.right.pattern->MkVal_0;
    let e2 = entity_bmap_result(a.entity_id, a.entity_id, l.1);
    assert(e2.0 && maps_to_itself(e2.1));
    lemma_item_self_agrees(a.value, e2.1, eq);
}

} // verus!
