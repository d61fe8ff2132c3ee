//! Matching patterns against patterns and values: comparing patterns,
//! filling bindings in, extracting the values that bindings take, and
//! matching the parts of models and composite states.
//!
//! Values are generic: how two values compare, how a value reads as a
//! vector of values and how a vector of values becomes a value are handed in
//! as functions, and the contracts speak of what those functions answer.

use vstd::prelude::*;
use crate::str_map::{entries_map, KeyMap, StrMap};
use crate::types::cst::{cst_binding_params, BoundCst, ICst};
use crate::types::models::{IMdl, MdlLeftValue, MdlRightValue};
use crate::types::pattern::{
    clone_items, filled_copy, filled_copy_items, item_cloned, item_filled, item_filled_copy,
    items_filled_copy, PatternItem,
};
use crate::types::{Command, EntityPatternValue, Fact, MkVal};

verus! {

/// Each value as a value item, in order.
pub fn value_vec_to_pattern_vec<V>(pattern: Vec<V>) -> (r: Vec<PatternItem<V>>)
    ensures
        r@.len() == pattern@.len(),
        forall|i: int| 0 <= i < r@.len() ==> #[trigger] r@[i] == PatternItem::Value(pattern@[i]),
{
    let ghost orig = pattern@;
    let mut rest = pattern;
    let mut out: Vec<PatternItem<V>> = Vec::new();
    while rest.len() > 0
        invariant
            out@.len() + rest@.len() == orig.len(),
            rest@ == orig.subrange(out@.len() as int, orig.len() as int),
            forall|j: int| 0 <= j < out@.len() ==> #[trigger] out@[j] == PatternItem::Value(orig[j]),
        decreases rest.len(),
    {
        let ghost k = out@.len() as int;
        assert(rest@[0] == orig[k]);
        let v = rest.remove(0);
        out.push(PatternItem::Value(v));
        assert(rest@ =~= orig.subrange(out@.len() as int, orig.len() as int));
    }
    out
}

/// The pattern with the bindings that `bindings` holds filled in, item by
/// item.
pub fn fill_in_pattern_with_bindings<V: Clone>(
    pattern: Vec<PatternItem<V>>,
    bindings: &StrMap<V>,
) -> (r: Vec<PatternItem<V>>)
    ensures
        r@.len() == pattern@.len(),
        forall|i: int| 0 <= i < r@.len() ==> item_filled(#[trigger] pattern@[i], r@[i], bindings@),
{
    let ghost orig = pattern@;
    let mut rest = pattern;
    let mut out: Vec<PatternItem<V>> = Vec::new();
    while rest.len() > 0
        invariant
            out@.len() + rest@.len() == orig.len(),
            rest@ == orig.subrange(out@.len() as int, orig.len() as int),
            forall|j: int| 0 <= j < out@.len() ==> item_filled(#[trigger] orig[j], out@[j], bindings@),
        decreases rest.len(),
    {
        let ghost k = out@.len() as int;
        assert(rest@[0] == orig[k]);
        let mut p = rest.remove(0);
        p.insert_binding_values(bindings);
        out.push(p);
        assert(rest@ =~= orig.subrange(out@.len() as int, orig.len() as int));
    }
    out
}

} // verus!

verus! {

/// `eq` and `as_vec` can be called on any values.
pub open spec fn value_ops_callable<V, E: Fn(&V, &V) -> bool, A: Fn(&V) -> Option<Vec<V>>>(
    eq: E,
    as_vec: A,
) -> bool {
    &&& forall|a: &V, b: &V| #[trigger] eq.requires((a, b))
    &&& forall|a: &V| #[trigger] as_vec.requires((a,))
}

/// `r` is an answer that a match of value `v` against item `p` may give: a
/// wildcard or a binding matches, a value when `eq` answers so, a nested
/// pattern when `as_vec` reads a vector whose elements match it.
pub open spec fn value_match_answer<V, E: Fn(&V, &V) -> bool, A: Fn(&V) -> Option<Vec<V>>>(
    v: V,
    p: PatternItem<V>,
    eq: E,
    as_vec: A,
    r: bool,
) -> bool
    decreases p, 1int,
{
    match p {
        PatternItem::Any => r,
        PatternItem::Binding(_) => r,
        PatternItem::Value(w) => eq.ensures((&v, &w), r),
        PatternItem::Vec(items) => exists|o: Option<Vec<V>>|
            #![trigger as_vec.ensures((&v,), o)]
            as_vec.ensures((&v,), o) && match o {
                Some(vs) => {
                    proof {
                        assert(decreases_to!(items => items@));
                    }
                    values_match_answer(vs@, items@, eq, as_vec, r)
                },
                None => !r,
            },
    }
}

/// `r` is an answer that a match of values against a pattern may give: a
/// match needs as many values as items, each matching the item in its
/// place; a mismatch has a different length or a value that does not.
pub open spec fn values_match_answer<V, E: Fn(&V, &V) -> bool, A: Fn(&V) -> Option<Vec<V>>>(
    vs: Seq<V>,
    items: Seq<PatternItem<V>>,
    eq: E,
    as_vec: A,
    r: bool,
) -> bool
    decreases items, 0int,
{
    if vs.len() != items.len() {
        !r
    } else if r {
        forall|i: int|
            0 <= i < items.len() ==> value_match_answer(vs[i], #[trigger] items[i], eq, as_vec, true)
    } else {
        exists|i: int|
            0 <= i < items.len() && value_match_answer(
                vs[i],
                #[trigger] items[i],
                eq,
                as_vec,
                false,
            )
    }
}

/// Whether a value matches a pattern item.
fn value_matches<V, E: Fn(&V, &V) -> bool, A: Fn(&V) -> Option<Vec<V>>>(
    v: &V,
    p: &PatternItem<V>,
    eq: &E,
    as_vec: &A,
) -> (r: bool)
    requires
        value_ops_callable(*eq, *as_vec),
    ensures
        value_match_answer(*v, *p, *eq, *as_vec, r),
    decreases p,
{
    match p {
        PatternItem::Any | PatternItem::Binding(_) => true,
        PatternItem::Value(w) => {
            assert(eq.requires((v, w)));
            eq(v, w)
        },
        PatternItem::Vec(items) => {
            assert(as_vec.requires((v,)));
            let o = as_vec(v);
            match o {
                Some(vs) => values_match(&vs, items, eq, as_vec),
                None => false,
            }
        },
    }
}

/// Whether values match a pattern.
fn values_match<V, E: Fn(&V, &V) -> bool, A: Fn(&V) -> Option<Vec<V>>>(
    vs: &Vec<V>,
    items: &Vec<PatternItem<V>>,
    eq: &E,
    as_vec: &A,
) -> (r: bool)
    requires
        value_ops_callable(*eq, *as_vec),
    ensures
        values_match_answer(vs@, items@, *eq, *as_vec, r),
    decreases items,
{
    if vs.len() != items.len() {
        return false;
    }
    let mut i: usize = 0;
    while i < items.len()
        invariant
            i <= items.len(),
            vs@.len() == items@.len(),
            value_ops_callable(*eq, *as_vec),
            forall|j: int|
                0 <= j < i ==> value_match_answer(vs@[j], #[trigger] items@[j], *eq, *as_vec, true),
        decreases items.len() - i,
    {
        proof {
            assert(decreases_to!(items => items[i as int]));
        }
        if !value_matches(&vs[i], &items[i], eq, as_vec) {
            assert(value_match_answer(vs@[i as int], items@[i as int], *eq, *as_vec, false));
            return false;
        }
        i = i + 1;
    }
    true
}

/// `r` is an answer that comparing two pattern items may give: a wildcard
/// or binding on either side matches when unbound items are allowed, two
/// values as `eq` answers, two nested patterns item by item, and a value and
/// a nested pattern as matching the value against the pattern answers.
pub open spec fn items_compare_answer<V, E: Fn(&V, &V) -> bool, A: Fn(&V) -> Option<Vec<V>>>(
    p1: PatternItem<V>,
    p2: PatternItem<V>,
    allow_unbound: bool,
    eq: E,
    as_vec: A,
    r: bool,
) -> bool
    decreases p1, 1int,
{
    match p1 {
        PatternItem::Any => r == allow_unbound,
        PatternItem::Binding(_) => r == allow_unbound,
        PatternItem::Value(v1) => match p2 {
            PatternItem::Any => r == allow_unbound,
            PatternItem::Binding(_) => r == allow_unbound,
            PatternItem::Value(v2) => eq.ensures((&v1, &v2), r),
            PatternItem::Vec(_) => value_match_answer(v1, p2, eq, as_vec, r),
        },
        PatternItem::Vec(v1) => match p2 {
            PatternItem::Any => r == allow_unbound,
            PatternItem::Binding(_) => r == allow_unbound,
            PatternItem::Vec(v2) => {
                proof {
                    assert(decreases_to!(v1 => v1@));
                }
                patterns_compare_answer(v1@, v2@, allow_unbound, false, eq, as_vec, r)
            },
            PatternItem::Value(w) => value_match_answer(w, p1, eq, as_vec, r),
        },
    }
}

/// `r` is an answer that comparing two patterns may give: a match needs the
/// same length, unless different lengths are allowed, and items that match
/// as far as the shorter pattern goes.
pub open spec fn patterns_compare_answer<V, E: Fn(&V, &V) -> bool, A: Fn(&V) -> Option<Vec<V>>>(
    s1: Seq<PatternItem<V>>,
    s2: Seq<PatternItem<V>>,
    allow_unbound: bool,
    allow_different_length: bool,
    eq: E,
    as_vec: A,
    r: bool,
) -> bool
    decreases s1, 0int,
{
    if !allow_different_length && s1.len() != s2.len() {
        !r
    } else if r {
        forall|i: int|
            0 <= i < s1.len() && i < s2.len() ==> items_compare_answer(
                #[trigger] s1[i],
                s2[i],
                allow_unbound,
                eq,
                as_vec,
                true,
            )
    } else {
        exists|i: int|
            0 <= i < s1.len() && i < s2.len() && items_compare_answer(
                #[trigger] s1[i],
                s2[i],
                allow_unbound,
                eq,
                as_vec,
                false,
            )
    }
}

/// Whether two patterns match, item by item; `eq` compares values and
/// `as_vec` reads the elements of a value that is a vector.
pub fn compare_patterns<V, E: Fn(&V, &V) -> bool, A: Fn(&V) -> Option<Vec<V>>>(
    pattern1: &Vec<PatternItem<V>>,
    pattern2: &Vec<PatternItem<V>>,
    allow_unbound: bool,
    allow_different_length: bool,
    eq: &E,
    as_vec: &A,
) -> (r: bool)
    requires
        value_ops_callable(*eq, *as_vec),
    ensures
        patterns_compare_answer(
            pattern1@,
            pattern2@,
            allow_unbound,
            allow_different_length,
            *eq,
            *as_vec,
            r,
        ),
    decreases pattern1,
{
    if !allow_different_length && pattern1.len() != pattern2.len() {
        return false;
    }
    let mut i: usize = 0;
    while i < pattern1.len() && i < pattern2.len()
        invariant
            i <= pattern1.len(),
            allow_different_length || pattern1@.len() == pattern2@.len(),
            value_ops_callable(*eq, *as_vec),
            forall|j: int|
                0 <= j < i && j < pattern2@.len() ==> items_compare_answer(
                    #[trigger] pattern1@[j],
                    pattern2@[j],
                    allow_unbound,
                    *eq,
                    *as_vec,
                    true,
                ),
        decreases pattern1.len() - i,
    {
        proof {
            assert(decreases_to!(pattern1 => pattern1[i as int]));
        }
        if !compare_pattern_items(&pattern1[i], &pattern2[i], allow_unbound, eq, as_vec) {
            assert(items_compare_answer(
                pattern1@[i as int],
                pattern2@[i as int],
                allow_unbound,
                *eq,
                *as_vec,
                false,
            ));
            return false;
        }
        i = i + 1;
    }
    true
}

/// Whether two pattern items match; `eq` compares values and `as_vec`
/// reads the elements of a value that is a vector.
pub fn compare_pattern_items<V, E: Fn(&V, &V) -> bool, A: Fn(&V) -> Option<Vec<V>>>(
    pattern_item1: &PatternItem<V>,
    pattern_item2: &PatternItem<V>,
    allow_unbound: bool,
    eq: &E,
    as_vec: &A,
) -> (r: bool)
    requires
        value_ops_callable(*eq, *as_vec),
    ensures
        items_compare_answer(*pattern_item1, *pattern_item2, allow_unbound, *eq, *as_vec, r),
    decreases pattern_item1,
{
    match pattern_item1 {
        PatternItem::Any | PatternItem::Binding(_) => allow_unbound,
        PatternItem::Value(v1) => match pattern_item2 {
            PatternItem::Any | PatternItem::Binding(_) => allow_unbound,
            PatternItem::Value(v2) => {
                assert(eq.requires((v1, v2)));
                eq(v1, v2)
            },
            PatternItem::Vec(_) => value_matches(v1, pattern_item2, eq, as_vec),
        },
        PatternItem::Vec(v1) => match pattern_item2 {
            PatternItem::Any | PatternItem::Binding(_) => allow_unbound,
            PatternItem::Vec(v2) => {
                proof {
                    assert(decreases_to!(*pattern_item1 => (*pattern_item1)->Vec_0));
                }
                compare_patterns(v1, v2, allow_unbound, false, eq, as_vec)
            },
            PatternItem::Value(w) => value_matches(w, pattern_item1, eq, as_vec),
        },
    }
}

/// Whether a value matches a pattern item: a wildcard or binding matches
/// anything, a value as `eq` answers, a nested pattern when `as_vec` reads
/// the value as a vector whose elements match it in place.
pub fn value_matches_pub<V, E: Fn(&V, &V) -> bool, A: Fn(&V) -> Option<Vec<V>>>(
    v: &V,
    p: &PatternItem<V>,
    eq: &E,
    as_vec: &A,
) -> (r: bool)
    requires
        value_ops_callable(*eq, *as_vec),
    ensures
        value_match_answer(*v, *p, *eq, *as_vec, r),
{
    value_matches(v, p, eq, as_vec)
}

/// Whether two instantiated models match: the same model and parameters
/// that compare.
pub fn compare_imdls<V: Clone, E: Fn(&V, &V) -> bool, A: Fn(&V) -> Option<Vec<V>>>(
    imdl1: &IMdl<V>,
    imdl2: &IMdl<V>,
    allow_unbound: bool,
    allow_different_length: bool,
    eq: &E,
    as_vec: &A,
) -> (r: bool)
    requires
        value_ops_callable(*eq, *as_vec),
    ensures
        r ==> imdl1.model_id@ == imdl2.model_id@ && patterns_compare_answer(
            imdl1.params@,
            imdl2.params@,
            allow_unbound,
            allow_different_length,
            *eq,
            *as_vec,
            true,
        ),
        !r ==> imdl1.model_id@ != imdl2.model_id@ || patterns_compare_answer(
            imdl1.params@,
            imdl2.params@,
            allow_unbound,
            allow_different_length,
            *eq,
            *as_vec,
            false,
        ),
{
    imdl1.model_id == imdl2.model_id && compare_patterns(
        &imdl1.params,
        &imdl2.params,
        allow_unbound,
        allow_different_length,
        eq,
        as_vec,
    )
}

/// Whether two instantiated composite states match: the same state and
/// parameters that compare.
pub fn compare_icsts<V, E: Fn(&V, &V) -> bool, A: Fn(&V) -> Option<Vec<V>>>(
    icst1: &ICst<V>,
    icst2: &ICst<V>,
    allow_unbound: bool,
    allow_different_length: bool,
    eq: &E,
    as_vec: &A,
) -> (r: bool)
    requires
        value_ops_callable(*eq, *as_vec),
    ensures
        r ==> icst1.cst_id@ == icst2.cst_id@ && patterns_compare_answer(
            icst1.params@,
            icst2.params@,
            allow_unbound,
            allow_different_length,
            *eq,
            *as_vec,
            true,
        ),
        !r ==> icst1.cst_id@ != icst2.cst_id@ || patterns_compare_answer(
            icst1.params@,
            icst2.params@,
            allow_unbound,
            allow_different_length,
            *eq,
            *as_vec,
            false,
        ),
{
    icst1.cst_id == icst2.cst_id && compare_patterns(
        &icst1.params,
        &icst2.params,
        allow_unbound,
        allow_different_length,
        eq,
        as_vec,
    )
}

/// Whether two commands match: the same name and parameters that compare.
pub fn compare_commands<V, E: Fn(&V, &V) -> bool, A: Fn(&V) -> Option<Vec<V>>>(
    cmd1: &Command<V>,
    cmd2: &Command<V>,
    allow_unbound: bool,
    allow_different_length: bool,
    eq: &E,
    as_vec: &A,
) -> (r: bool)
    requires
        value_ops_callable(*eq, *as_vec),
    ensures
        r ==> cmd1.name@ == cmd2.name@ && patterns_compare_answer(
            cmd1.params@,
            cmd2.params@,
            allow_unbound,
            allow_different_length,
            *eq,
            *as_vec,
            true,
        ),
        !r ==> cmd1.name@ != cmd2.name@ || patterns_compare_answer(
            cmd1.params@,
            cmd2.params@,
            allow_unbound,
            allow_different_length,
            *eq,
            *as_vec,
            false,
        ),
{
    cmd1.name == cmd2.name && compare_patterns(
        &cmd1.params,
        &cmd2.params,
        allow_unbound,
        allow_different_length,
        eq,
        as_vec,
    )
}

/// Two entities agree when either is a binding or both are the same id.
pub open spec fn entities_agree(e1: EntityPatternValue, e2: EntityPatternValue) -> bool {
    match (e1, e2) {
        (EntityPatternValue::EntityId(a), EntityPatternValue::EntityId(b)) => a@ == b@,
        _ => true,
    }
}

impl<V> MkVal<V> {
    /// Whether two variable patterns match: entities that agree, the same
    /// variable, and values that compare with bindings taken as wildcards.
    pub fn matches_mk_val<E: Fn(&V, &V) -> bool, A: Fn(&V) -> Option<Vec<V>>>(
        &self,
        mk_val: &MkVal<V>,
        eq: &E,
        as_vec: &A,
    ) -> (r: bool)
        requires
            value_ops_callable(*eq, *as_vec),
        ensures
            r ==> entities_agree(self.entity_id, mk_val.entity_id) && self.var_name@
                == mk_val.var_name@ && items_compare_answer(
                self.value,
                mk_val.value,
                true,
                *eq,
                *as_vec,
                true,
            ),
            !r ==> !entities_agree(self.entity_id, mk_val.entity_id) || self.var_name@
                != mk_val.var_name@ || items_compare_answer(
                self.value,
                mk_val.value,
                true,
                *eq,
                *as_vec,
                false,
            ),
    {
        let matches_entity = match (&self.entity_id, &mk_val.entity_id) {
            (EntityPatternValue::EntityId(e1), EntityPatternValue::EntityId(e2)) => *e1 == *e2,
            _ => true,
        };
        assert(matches_entity == entities_agree(self.entity_id, mk_val.entity_id));
        matches_entity && self.var_name == mk_val.var_name && compare_pattern_items(
            &self.value,
            &mk_val.value,
            true,
            eq,
            as_vec,
        )
    }
}

/// `eq` can be called on any two values and never answers both ways.
pub open spec fn eq_answers<V, E: Fn(&V, &V) -> bool>(eq: E) -> bool {
    forall|a: &V, b: &V|
        #![trigger eq.requires((a, b))]
        eq.requires((a, b)) && !(eq.ensures((a, b), true) && eq.ensures((a, b), false))
}

/// What `eq` answers for two values.
pub open spec fn eq_answer<V, E: Fn(&V, &V) -> bool>(eq: E, a: V, b: V) -> bool {
    eq.ensures((&a, &b), true)
}

/// Cloning a value gives the same value.
pub open spec fn clones_equal<V: Clone>() -> bool {
    forall|a: V, b: V| #[trigger] cloned(a, b) ==> a == b
}

/// The elements of an optional vector.
pub open spec fn seq_view_of<V>(o: Option<Vec<V>>) -> Option<Seq<V>> {
    match o {
        Some(v) => Some(v@),
        None => None,
    }
}

/// `make_vec` may make `v` of a vector with the elements `vs`.
pub open spec fn makes<V, M: Fn(Vec<V>) -> V>(make_vec: M, vs: Seq<V>, v: V) -> bool {
    exists|w: Vec<V>| w@ == vs && #[trigger] make_vec.ensures((w,), v)
}

/// The value that `make_vec` makes of a vector with the elements `vs`.
pub open spec fn made_vec<V, M: Fn(Vec<V>) -> V>(make_vec: M, vs: Seq<V>) -> V {
    choose|v: V| makes(make_vec, vs, v)
}

/// `make_vec` can be called on any vector and makes the same value of
/// vectors with the same elements.
pub open spec fn make_vec_decides<V, M: Fn(Vec<V>) -> V>(make_vec: M) -> bool {
    &&& forall|w: Vec<V>| #[trigger] make_vec.requires((w,))
    &&& forall|vs: Seq<V>, v1: V, v2: V|
        #[trigger] makes(make_vec, vs, v1) && #[trigger] makes(make_vec, vs, v2) ==> v1 == v2
}

/// What a call of `make_vec` made is the value it makes of those elements.
pub proof fn lemma_made_vec<V, M: Fn(Vec<V>) -> V>(make_vec: M, w: Vec<V>, v: V)
    requires
        make_vec_decides(make_vec),
        make_vec.ensures((w,), v),
    ensures
        v == made_vec(make_vec, w@),
{
    assert(makes(make_vec, w@, v));
    let chosen = made_vec(make_vec, w@);
    assert(makes(make_vec, w@, chosen));
}

/// `as_vec` may read `o` from the value `a`.
pub open spec fn reads<V, A: Fn(&V) -> Option<Vec<V>>>(as_vec: A, a: V, o: Option<Seq<V>>) -> bool {
    exists|r: Option<Vec<V>>| #[trigger] as_vec.ensures((&a,), r) && seq_view_of(r) == o
}

/// The elements that `as_vec` reads from a value, if it is a vector.
pub open spec fn read_vec<V, A: Fn(&V) -> Option<Vec<V>>>(as_vec: A, a: V) -> Option<Seq<V>> {
    choose|o: Option<Seq<V>>| reads(as_vec, a, o)
}

/// `as_vec` can be called on any value and reads the same elements each
/// time.
pub open spec fn as_vec_reads<V, A: Fn(&V) -> Option<Vec<V>>>(as_vec: A) -> bool {
    forall|a: &V|
        #![trigger as_vec.requires((a,))]
        as_vec.requires((a,)) && forall|r1: Option<Vec<V>>, r2: Option<Vec<V>>|
            as_vec.ensures((a,), r1) && as_vec.ensures((a,), r2) ==> seq_view_of(r1) == seq_view_of(
                r2,
            )
}

/// What a call of `as_vec` read is the elements it reads from that value.
pub proof fn lemma_read_vec<V, A: Fn(&V) -> Option<Vec<V>>>(as_vec: A, a: V, o: Option<Vec<V>>)
    requires
        as_vec_reads(as_vec),
        as_vec.ensures((&a,), o),
    ensures
        read_vec(as_vec, a) == seq_view_of(o),
{
    assert(as_vec.requires((&a,)));
    assert(reads(as_vec, a, seq_view_of(o)));
    let chosen = read_vec(as_vec, a);
    let r2 = choose|r2: Option<Vec<V>>| as_vec.ensures((&a,), r2) && seq_view_of(r2) == chosen;
}

/// The value of a pattern item that holds no binding or wildcard: a value
/// itself, and for a nested pattern the vector `make_vec` makes of its
/// values.
pub open spec fn item_value<V, M: Fn(Vec<V>) -> V>(p: PatternItem<V>, make_vec: M) -> Option<V>
    decreases p,
{
    match p {
        PatternItem::Value(v) => Some(v),
        PatternItem::Vec(items) => {
            proof {
                assert(decreases_to!(items => items@));
            }
            match pattern_values(items@, make_vec) {
                Some(vs) => Some(made_vec(make_vec, vs)),
                None => None,
            }
        },
        _ => None,
    }
}

/// The values of a pattern's items in order, if each has one.
pub open spec fn pattern_values<V, M: Fn(Vec<V>) -> V>(s: Seq<PatternItem<V>>, make_vec: M) -> Option<
    Seq<V>,
>
    decreases s,
{
    if s.len() == 0 {
        Some(seq![])
    } else {
        match (pattern_values(s.drop_last(), make_vec), item_value(s.last(), make_vec)) {
            (Some(vs), Some(v)) => Some(vs.push(v)),
            _ => None,
        }
    }
}

/// A pattern whose first items have no values has no values.
proof fn lemma_pattern_values_prefix<V, M: Fn(Vec<V>) -> V>(
    s: Seq<PatternItem<V>>,
    k: int,
    make_vec: M,
)
    requires
        0 <= k <= s.len(),
        pattern_values(s.subrange(0, k), make_vec) is None,
    ensures
        pattern_values(s, make_vec) is None,
    decreases s.len(),
{
    if k < s.len() {
        assert(s.drop_last().subrange(0, k) =~= s.subrange(0, k));
        lemma_pattern_values_prefix(s.drop_last(), k, make_vec);
    } else {
        assert(s.subrange(0, k) =~= s);
    }
}

/// The values of the pattern's items, if none of them is a binding or a
/// wildcard, at any depth; nested patterns become the vectors that
/// `make_vec` makes of their values.
pub fn pattern_vec_to_value_vec<V, M: Fn(Vec<V>) -> V>(
    pattern: Vec<PatternItem<V>>,
    make_vec: &M,
) -> (r: Option<Vec<V>>)
    requires
        make_vec_decides(*make_vec),
    ensures
        seq_view_of(r) == pattern_values(pattern@, *make_vec),
    decreases pattern,
{
    let ghost orig = pattern@;
    let n = pattern.len();
    let mut rest = pattern;
    let mut out: Vec<V> = Vec::new();
    let mut k: usize = 0;
    assert(orig.subrange(0, 0) =~= Seq::<PatternItem<V>>::empty());
    while k < n
        invariant
            make_vec_decides(*make_vec),
            orig == pattern@,
            n == orig.len(),
            k <= n,
            rest@ == orig.subrange(k as int, n as int),
            pattern_values(orig.subrange(0, k as int), *make_vec) == Some(out@),
        decreases n - k,
    {
        assert(rest@[0] == orig[k as int]);
        let item = rest.remove(0);
        assert(rest@ =~= orig.subrange(k + 1, n as int));
        let ghost prefix = orig.subrange(0, k + 1);
        assert(prefix.drop_last() =~= orig.subrange(0, k as int));
        assert(prefix.last() == orig[k as int]);
        let value = match item {
            PatternItem::Value(v) => v,
            PatternItem::Vec(items) => {
                proof {
                    assert(decreases_to!(pattern => pattern@[k as int]));
                    assert(decreases_to!(pattern@[k as int] => pattern@[k as int]->Vec_0));
                }
                match pattern_vec_to_value_vec(items, make_vec) {
                    Some(vs) => {
                        let ghost w = vs;
                        let v = make_vec(vs);
                        proof {
                            lemma_made_vec(*make_vec, w, v);
                        }
                        v
                    },
                    None => {
                        proof {
                            assert(item_value(orig[k as int], *make_vec) is None);
                            assert(pattern_values(prefix, *make_vec) is None);
                            lemma_pattern_values_prefix(orig, k + 1, *make_vec);
                        }
                        return None;
                    },
                }
            },
            _ => {
                proof {
                    assert(item_value(orig[k as int], *make_vec) is None);
                    assert(pattern_values(prefix, *make_vec) is None);
                    lemma_pattern_values_prefix(orig, k + 1, *make_vec);
                }
                return None;
            },
        };
        out.push(value);
        k = k + 1;
    }
    assert(orig.subrange(0, n as int) =~= orig);
    Some(out)
}

/// A copy of a fully bound item has the same value.
proof fn lemma_item_cloned_value<V: Clone, M: Fn(Vec<V>) -> V>(
    a: PatternItem<V>,
    b: PatternItem<V>,
    make_vec: M,
)
    requires
        clones_equal::<V>(),
        item_cloned(a, b),
    ensures
        item_value(a, make_vec) == item_value(b, make_vec),
    decreases a,
{
    match a {
        PatternItem::Value(x) => {
            assert(cloned(x, b->Value_0));
        },
        PatternItem::Vec(v) => {
            assert(decreases_to!(a => a->Vec_0));
            assert(decreases_to!(v => v@));
            lemma_items_cloned_values(v@, b->Vec_0@, make_vec);
        },
        _ => {},
    }
}

/// A copy of a fully bound pattern has the same values.
proof fn lemma_items_cloned_values<V: Clone, M: Fn(Vec<V>) -> V>(
    s: Seq<PatternItem<V>>,
    t: Seq<PatternItem<V>>,
    make_vec: M,
)
    requires
        clones_equal::<V>(),
        t.len() == s.len(),
        forall|i: int| 0 <= i < s.len() ==> item_cloned(#[trigger] s[i], t[i]),
    ensures
        pattern_values(s, make_vec) == pattern_values(t, make_vec),
    decreases s,
{
    if s.len() > 0 {
        let n = s.len() - 1;
        assert(item_cloned(s[n], t[n]));
        lemma_items_cloned_values(s.drop_last(), t.drop_last(), make_vec);
        lemma_item_cloned_value(s.last(), t.last(), make_vec);
    }
}

/// The smaller of two lengths.
pub open spec fn shorter(a: nat, b: nat) -> int {
    if a <= b {
        a as int
    } else {
        b as int
    }
}

/// The bindings of a pattern item paired with the parts of a value in
/// their places: a binding takes the value, a nested pattern the elements
/// that `as_vec` reads from it, place by place; anything else gives nothing.
pub open spec fn item_value_pairs<V, A: Fn(&V) -> Option<Vec<V>>>(
    b: PatternItem<V>,
    v: V,
    as_vec: A,
) -> Seq<(Seq<char>, V)>
    decreases b, 0int,
{
    match b {
        PatternItem::Binding(name) => seq![(name@, v)],
        PatternItem::Vec(bv) => match read_vec(as_vec, v) {
            Some(vs) => {
                proof {
                    assert(decreases_to!(b => bv));
                    assert(decreases_to!(bv => bv@));
                }
                value_pairs_upto(bv@, vs, shorter(bv@.len(), vs.len()), as_vec)
            },
            None => seq![],
        },
        _ => seq![],
    }
}

/// The pairs of the first `n` items of a pattern with the values in their
/// places, in order.
pub open spec fn value_pairs_upto<V, A: Fn(&V) -> Option<Vec<V>>>(
    s: Seq<PatternItem<V>>,
    vs: Seq<V>,
    n: int,
    as_vec: A,
) -> Seq<(Seq<char>, V)>
    decreases s, n,
{
    if n <= 0 || n > s.len() || n > vs.len() {
        seq![]
    } else {
        value_pairs_upto(s, vs, n - 1, as_vec) + item_value_pairs(s[n - 1], vs[n - 1], as_vec)
    }
}

/// The bindings of one pattern item paired with the values in their places
/// in another: a binding takes a value item, nested patterns pair place by
/// place, and a nested pattern takes the elements that `as_vec` reads from
/// a value item; anything else gives nothing.
pub open spec fn item_pattern_pairs<V, A: Fn(&V) -> Option<Vec<V>>>(
    b: PatternItem<V>,
    p: PatternItem<V>,
    as_vec: A,
) -> Seq<(Seq<char>, V)>
    decreases b, 0int,
{
    match (b, p) {
        (PatternItem::Binding(name), PatternItem::Value(v)) => seq![(name@, v)],
        (PatternItem::Vec(bv), PatternItem::Vec(vv)) => {
            proof {
                assert(decreases_to!(b => bv));
                assert(decreases_to!(bv => bv@));
            }
            pattern_pairs_upto(bv@, vv@, shorter(bv@.len(), vv@.len()), as_vec)
        },
        (PatternItem::Vec(bv), PatternItem::Value(v)) => match read_vec(as_vec, v) {
            Some(vs) => value_pairs_upto(bv@, vs, shorter(bv@.len(), vs.len()), as_vec),
            None => seq![],
        },
        _ => seq![],
    }
}

/// The pairs of the first `n` items of two patterns, in order.
pub open spec fn pattern_pairs_upto<V, A: Fn(&V) -> Option<Vec<V>>>(
    s1: Seq<PatternItem<V>>,
    s2: Seq<PatternItem<V>>,
    n: int,
    as_vec: A,
) -> Seq<(Seq<char>, V)>
    decreases s1, n,
{
    if n <= 0 || n > s1.len() || n > s2.len() {
        seq![]
    } else {
        pattern_pairs_upto(s1, s2, n - 1, as_vec) + item_pattern_pairs(s1[n - 1], s2[n - 1], as_vec)
    }
}

/// Pairs of names and values, names taken by their characters.
pub open spec fn pairs_view<V>(s: Seq<(String, V)>) -> Seq<(Seq<char>, V)> {
    s.map_values(|p: (String, V)| (p.0@, p.1))
}

/// The bindings of a pattern paired with the values in their places, a
/// binding once for each place it occupies.
pub fn extract_duplicate_bindings_from_pattern_and_values<V: Clone, A: Fn(&V) -> Option<Vec<V>>>(
    pattern_with_bindings: &Vec<PatternItem<V>>,
    values: &Vec<V>,
    as_vec: &A,
) -> (r: Vec<(String, V)>)
    requires
        as_vec_reads(*as_vec),
        clones_equal::<V>(),
    ensures
        pairs_view(r@) == value_pairs_upto(
            pattern_with_bindings@,
            values@,
            shorter(pattern_with_bindings@.len(), values@.len()),
            *as_vec,
        ),
    decreases pattern_with_bindings,
{
    let n: usize = if pattern_with_bindings.len() <= values.len() {
        pattern_with_bindings.len()
    } else {
        values.len()
    };
    let mut out: Vec<(String, V)> = Vec::new();
    let mut i: usize = 0;
    assert(pairs_view(out@) =~= Seq::<(Seq<char>, V)>::empty());
    while i < n
        invariant
            i <= n,
            n == shorter(pattern_with_bindings@.len(), values@.len()),
            as_vec_reads(*as_vec),
            clones_equal::<V>(),
            pairs_view(out@) == value_pairs_upto(pattern_with_bindings@, values@, i as int, *as_vec),
        decreases n - i,
    {
        let ghost before = pairs_view(out@);
        let ghost b = pattern_with_bindings@[i as int];
        let ghost v = values@[i as int];
        match &pattern_with_bindings[i] {
            PatternItem::Binding(name) => {
                let value = values[i].clone();
                assert(cloned(v, value));
                out.push((name.clone(), value));
                assert(pairs_view(out@) =~= before + item_value_pairs(b, v, *as_vec));
            },
            PatternItem::Vec(bv) => {
                proof {
                    assert(decreases_to!(pattern_with_bindings => pattern_with_bindings[i as int]));
                    assert(decreases_to!(b => b->Vec_0));
                }
                let value = &values[i];
                assert(as_vec.requires((value,)));
                let o = as_vec(value);
                proof {
                    lemma_read_vec(*as_vec, v, o);
                }
                match o {
                    Some(vv) => {
                        let mut inner = extract_duplicate_bindings_from_pattern_and_values(
                            bv,
                            &vv,
                            as_vec,
                        );
                        let ghost added = pairs_view(inner@);
                        out.append(&mut inner);
                        assert(pairs_view(out@) =~= before + added);
                    },
                    None => {
                        assert(pairs_view(out@) =~= before + item_value_pairs(b, v, *as_vec));
                    },
                }
            },
            _ => {
                assert(pairs_view(out@) =~= before + item_value_pairs(b, v, *as_vec));
            },
        }
        assert(pairs_view(out@) == before + item_value_pairs(b, v, *as_vec));
        i = i + 1;
    }
    out
}

/// The bindings of one pattern item paired with the parts of a value in
/// their places.
pub(crate) fn extract_item_value_pairs<V: Clone, A: Fn(&V) -> Option<Vec<V>>>(
    b: &PatternItem<V>,
    v: &V,
    as_vec: &A,
) -> (r: Vec<(String, V)>)
    requires
        as_vec_reads(*as_vec),
        clones_equal::<V>(),
    ensures
        pairs_view(r@) == item_value_pairs(*b, *v, *as_vec),
{
    match b {
        PatternItem::Binding(name) => {
            let value = v.clone();
            assert(cloned(*v, value));
            let out = vec![(name.clone(), value)];
            assert(pairs_view(out@) =~= item_value_pairs(*b, *v, *as_vec));
            out
        },
        PatternItem::Vec(bv) => {
            let o = as_vec(v);
            proof {
                lemma_read_vec(*as_vec, *v, o);
            }
            match o {
                Some(vv) => extract_duplicate_bindings_from_pattern_and_values(bv, &vv, as_vec),
                None => {
                    let out: Vec<(String, V)> = Vec::new();
                    assert(pairs_view(out@) =~= item_value_pairs(*b, *v, *as_vec));
                    out
                },
            }
        },
        _ => {
            let out: Vec<(String, V)> = Vec::new();
            assert(pairs_view(out@) =~= item_value_pairs(*b, *v, *as_vec));
            out
        },
    }
}

/// The bindings of one pattern paired with the values in their places in
/// another, a binding once for each place it occupies.
pub fn extract_duplicate_bindings_from_pattern<V: Clone, A: Fn(&V) -> Option<Vec<V>>>(
    pattern_with_bindings: &Vec<PatternItem<V>>,
    pattern_with_values: &Vec<PatternItem<V>>,
    as_vec: &A,
) -> (r: Vec<(String, V)>)
    requires
        as_vec_reads(*as_vec),
        clones_equal::<V>(),
    ensures
        pairs_view(r@) == pattern_pairs_upto(
            pattern_with_bindings@,
            pattern_with_values@,
            shorter(pattern_with_bindings@.len(), pattern_with_values@.len()),
            *as_vec,
        ),
    decreases pattern_with_bindings,
{
    let n: usize = if pattern_with_bindings.len() <= pattern_with_values.len() {
        pattern_with_bindings.len()
    } else {
        pattern_with_values.len()
    };
    let mut out: Vec<(String, V)> = Vec::new();
    let mut i: usize = 0;
    assert(pairs_view(out@) =~= Seq::<(Seq<char>, V)>::empty());
    while i < n
        invariant
            i <= n,
            n == shorter(pattern_with_bindings@.len(), pattern_with_values@.len()),
            as_vec_reads(*as_vec),
            clones_equal::<V>(),
            pairs_view(out@) == pattern_pairs_upto(
                pattern_with_bindings@,
                pattern_with_values@,
                i as int,
                *as_vec,
            ),
        decreases n - i,
    {
        let ghost before = pairs_view(out@);
        let ghost b = pattern_with_bindings@[i as int];
        let ghost p = pattern_with_values@[i as int];
        match (&pattern_with_bindings[i], &pattern_with_values[i]) {
            (PatternItem::Binding(name), PatternItem::Value(v)) => {
                let value = v.clone();
                assert(cloned(*v, value));
                out.push((name.clone(), value));
                assert(pairs_view(out@) =~= before + item_pattern_pairs(b, p, *as_vec));
            },
            (PatternItem::Vec(bv), PatternItem::Vec(vv)) => {
                proof {
                    assert(decreases_to!(pattern_with_bindings => pattern_with_bindings[i as int]));
                    assert(decreases_to!(b => b->Vec_0));
                }
                let mut inner = extract_duplicate_bindings_from_pattern(bv, vv, as_vec);
                let ghost added = pairs_view(inner@);
                out.append(&mut inner);
                assert(pairs_view(out@) =~= before + added);
            },
            (PatternItem::Vec(bv), PatternItem::Value(v)) => {
                assert(as_vec.requires((v,)));
                let o = as_vec(v);
                proof {
                    lemma_read_vec(*as_vec, *v, o);
                }
                match o {
                    Some(vv) => {
                        let mut inner = extract_duplicate_bindings_from_pattern_and_values(
                            bv,
                            &vv,
                            as_vec,
                        );
                        let ghost added = pairs_view(inner@);
                        out.append(&mut inner);
                        assert(pairs_view(out@) =~= before + added);
                    },
                    None => {
                        assert(pairs_view(out@) =~= before + item_pattern_pairs(b, p, *as_vec));
                    },
                }
            },
            _ => {
                assert(pairs_view(out@) =~= before + item_pattern_pairs(b, p, *as_vec));
            },
        }
        assert(pairs_view(out@) == before + item_pattern_pairs(b, p, *as_vec));
        i = i + 1;
    }
    out
}

/// The bindings of one pattern item paired with what they take in another,
/// as binding maps are extracted: a binding also takes a nested pattern
/// that holds values only, as the vector `make_vec` makes of them.
pub open spec fn extracted_item_pairs<V, A: Fn(&V) -> Option<Vec<V>>, M: Fn(Vec<V>) -> V>(
    b: PatternItem<V>,
    p: PatternItem<V>,
    as_vec: A,
    make_vec: M,
) -> Seq<(Seq<char>, V)> {
    match (b, p) {
        (PatternItem::Binding(name), PatternItem::Vec(items)) => match pattern_values(
            items@,
            make_vec,
        ) {
            Some(vs) => seq![(name@, made_vec(make_vec, vs))],
            None => seq![],
        },
        _ => item_pattern_pairs(b, p, as_vec),
    }
}

/// The extracted pairs of the first `n` items of two patterns, in order.
pub open spec fn extracted_pairs_upto<V, A: Fn(&V) -> Option<Vec<V>>, M: Fn(Vec<V>) -> V>(
    s1: Seq<PatternItem<V>>,
    s2: Seq<PatternItem<V>>,
    n: int,
    as_vec: A,
    make_vec: M,
) -> Seq<(Seq<char>, V)>
    decreases n,
{
    if n <= 0 || n > s1.len() || n > s2.len() {
        seq![]
    } else {
        extracted_pairs_upto(s1, s2, n - 1, as_vec, make_vec) + extracted_item_pairs(
            s1[n - 1],
            s2[n - 1],
            as_vec,
            make_vec,
        )
    }
}

/// The map of bindings that matching a pattern against another gives: the
/// extracted pairs as far as the shorter pattern goes, a later pair for the
/// same binding overriding an earlier one.
pub open spec fn extracted_map<V, A: Fn(&V) -> Option<Vec<V>>, M: Fn(Vec<V>) -> V>(
    s1: Seq<PatternItem<V>>,
    s2: Seq<PatternItem<V>>,
    as_vec: A,
    make_vec: M,
) -> Map<Seq<char>, V> {
    entries_map(extracted_pairs_upto(s1, s2, shorter(s1.len(), s2.len()), as_vec, make_vec))
}

/// The pairs that one pair of items gives.
fn extract_item_pairs<V: Clone, A: Fn(&V) -> Option<Vec<V>>, M: Fn(Vec<V>) -> V>(
    b: &PatternItem<V>,
    p: &PatternItem<V>,
    as_vec: &A,
    make_vec: &M,
) -> (r: Vec<(String, V)>)
    requires
        as_vec_reads(*as_vec),
        make_vec_decides(*make_vec),
        clones_equal::<V>(),
    ensures
        pairs_view(r@) == extracted_item_pairs(*b, *p, *as_vec, *make_vec),
{
    match (b, p) {
        (PatternItem::Binding(name), PatternItem::Vec(items)) => {
            let copy = clone_items(items);
            proof {
                lemma_items_cloned_values(items@, copy@, *make_vec);
            }
            match pattern_vec_to_value_vec(copy, make_vec) {
                Some(vs) => {
                    let ghost w = vs;
                    let v = make_vec(vs);
                    proof {
                        lemma_made_vec(*make_vec, w, v);
                    }
                    let out = vec![(name.clone(), v)];
                    assert(pairs_view(out@) =~= extracted_item_pairs(*b, *p, *as_vec, *make_vec));
                    out
                },
                None => {
                    let out: Vec<(String, V)> = Vec::new();
                    assert(pairs_view(out@) =~= extracted_item_pairs(*b, *p, *as_vec, *make_vec));
                    out
                },
            }
        },
        _ => extract_single_pair(b, p, as_vec),
    }
}

/// The pairs that one pair of items gives when a binding does not take a
/// nested pattern.
fn extract_single_pair<V: Clone, A: Fn(&V) -> Option<Vec<V>>>(
    b: &PatternItem<V>,
    p: &PatternItem<V>,
    as_vec: &A,
) -> (r: Vec<(String, V)>)
    requires
        as_vec_reads(*as_vec),
        clones_equal::<V>(),
    ensures
        pairs_view(r@) == item_pattern_pairs(*b, *p, *as_vec),
{
    match (b, p) {
        (PatternItem::Binding(name), PatternItem::Value(v)) => {
            let value = v.clone();
            assert(cloned(*v, value));
            let out = vec![(name.clone(), value)];
            assert(pairs_view(out@) =~= item_pattern_pairs(*b, *p, *as_vec));
            out
        },
        (PatternItem::Vec(bv), PatternItem::Vec(vv)) => extract_duplicate_bindings_from_pattern(
            bv,
            vv,
            as_vec,
        ),
        (PatternItem::Vec(bv), PatternItem::Value(v)) => {
            assert(as_vec.requires((v,)));
            let o = as_vec(v);
            proof {
                lemma_read_vec(*as_vec, *v, o);
            }
            match o {
                Some(vv) => extract_duplicate_bindings_from_pattern_and_values(bv, &vv, as_vec),
                None => {
                    let out: Vec<(String, V)> = Vec::new();
                    assert(pairs_view(out@) =~= item_pattern_pairs(*b, *p, *as_vec));
                    out
                },
            }
        },
        _ => {
            let out: Vec<(String, V)> = Vec::new();
            assert(pairs_view(out@) =~= item_pattern_pairs(*b, *p, *as_vec));
            out
        },
    }
}

/// The pairs that two patterns give, place by place, as far as the shorter
/// goes.
fn extract_from_items<V: Clone, A: Fn(&V) -> Option<Vec<V>>, M: Fn(Vec<V>) -> V>(
    pattern_with_bindings: &Vec<PatternItem<V>>,
    pattern_with_values: &Vec<PatternItem<V>>,
    as_vec: &A,
    make_vec: &M,
) -> (r: Vec<(String, V)>)
    requires
        as_vec_reads(*as_vec),
        make_vec_decides(*make_vec),
        clones_equal::<V>(),
    ensures
        pairs_view(r@) == extracted_pairs_upto(
            pattern_with_bindings@,
            pattern_with_values@,
            shorter(pattern_with_bindings@.len(), pattern_with_values@.len()),
            *as_vec,
            *make_vec,
        ),
{
    let n: usize = if pattern_with_bindings.len() <= pattern_with_values.len() {
        pattern_with_bindings.len()
    } else {
        pattern_with_values.len()
    };
    let mut out: Vec<(String, V)> = Vec::new();
    let mut i: usize = 0;
    assert(pairs_view(out@) =~= Seq::<(Seq<char>, V)>::empty());
    while i < n
        invariant
            i <= n,
            n == shorter(pattern_with_bindings@.len(), pattern_with_values@.len()),
            as_vec_reads(*as_vec),
            make_vec_decides(*make_vec),
            clones_equal::<V>(),
            pairs_view(out@) == extracted_pairs_upto(
                pattern_with_bindings@,
                pattern_with_values@,
                i as int,
                *as_vec,
                *make_vec,
            ),
        decreases n - i,
    {
        let ghost before = pairs_view(out@);
        let mut inner = extract_item_pairs(
            &pattern_with_bindings[i],
            &pattern_with_values[i],
            as_vec,
            make_vec,
        );
        let ghost added = pairs_view(inner@);
        out.append(&mut inner);
        assert(pairs_view(out@) =~= before + added);
        i = i + 1;
    }
    out
}

/// The map of the pairs, a later pair for the same name overriding an
/// earlier one.
fn pairs_to_map<V>(pairs: Vec<(String, V)>) -> (r: StrMap<V>)
    ensures
        r@ == entries_map(pairs_view(pairs@)),
{
    let ghost all = pairs_view(pairs@);
    let n = pairs.len();
    let mut rest = pairs;
    let mut map: StrMap<V> = StrMap::new();
    let mut k: usize = 0;
    assert(all.subrange(0, 0) =~= Seq::<(Seq<char>, V)>::empty());
    while k < n
        invariant
            k <= n,
            n == all.len(),
            pairs_view(rest@) == all.subrange(k as int, n as int),
            rest@.len() == n - k,
            map@ == entries_map(all.subrange(0, k as int)),
        decreases n - k,
    {
        assert(pairs_view(rest@)[0] == all[k as int]);
        let ghost old_rest = rest@;
        let (name, value) = rest.remove(0);
        assert forall|j: int| 0 <= j < rest@.len() implies pairs_view(rest@)[j] == all[k + 1
            + j] by {
            assert(rest@[j] == old_rest[j + 1]);
            assert(pairs_view(old_rest)[j + 1] == all.subrange(k as int, n as int)[j + 1]);
        }
        assert(pairs_view(rest@) =~= all.subrange(k + 1, n as int));
        assert(rest@.len() == n - k - 1);
        map.insert(name, value);
        assert(all.subrange(0, k + 1).drop_last() =~= all.subrange(0, k as int));
        k = k + 1;
    }
    assert(all.subrange(0, n as int) =~= all);
    map
}

/// The bindings of one pattern with the values they take in another, as
/// far as the shorter pattern goes: a binding takes a value, or a nested
/// pattern that holds values only; nested patterns give the bindings in
/// their places. A later place overrides an earlier one for the same
/// binding.
pub fn extract_bindings_from_patterns<V: Clone, A: Fn(&V) -> Option<Vec<V>>, M: Fn(Vec<V>) -> V>(
    pattern_with_bindings: &Vec<PatternItem<V>>,
    pattern_with_values: &Vec<PatternItem<V>>,
    as_vec: &A,
    make_vec: &M,
) -> (r: StrMap<V>)
    requires
        as_vec_reads(*as_vec),
        make_vec_decides(*make_vec),
        clones_equal::<V>(),
    ensures
        r@ == extracted_map(pattern_with_bindings@, pattern_with_values@, *as_vec, *make_vec),
{
    let pairs = extract_from_items(pattern_with_bindings, pattern_with_values, as_vec, make_vec);
    pairs_to_map(pairs)
}

/// The outcome of a match: the bindings it found, or no match.
pub enum PatternMatchResult<V> {
    True(StrMap<V>),
    False,
}

/// The bindings that matching a value against a pattern item gives, on
/// top of the bindings `m` already holds, or `None` when it does not match:
/// a wildcard matches anything; a binding that is bound matches a value
/// that `eq` answers equal to its value, and one that is not is bound to the
/// value; a value matches when `eq` answers so; a nested pattern matches a
/// value that `as_vec` reads as as many elements, matched in place, in
/// order, each with the bindings the ones before it gave.
pub open spec fn match_result<V, E: Fn(&V, &V) -> bool, A: Fn(&V) -> Option<Vec<V>>>(
    p: PatternItem<V>,
    v: V,
    m: Map<Seq<char>, V>,
    eq: E,
    as_vec: A,
) -> Option<Map<Seq<char>, V>>
    decreases p, 0int,
{
    match p {
        PatternItem::Any => Some(m),
        PatternItem::Binding(b) => if m.contains_key(b@) {
            if eq_answer(eq, m[b@], v) {
                Some(m)
            } else {
                None
            }
        } else {
            Some(m.insert(b@, v))
        },
        PatternItem::Value(w) => if eq_answer(eq, w, v) {
            Some(m)
        } else {
            None
        },
        PatternItem::Vec(items) => match read_vec(as_vec, v) {
            Some(vs) => if vs.len() == items@.len() {
                proof {
                    assert(decreases_to!(p => items));
                    assert(decreases_to!(items => items@));
                }
                seq_match_result(items@, vs, items@.len() as int, m, eq, as_vec)
            } else {
                None
            },
            None => None,
        },
    }
}

/// The bindings that matching the first `n` values against the items in
/// their places gives, in order.
pub open spec fn seq_match_result<V, E: Fn(&V, &V) -> bool, A: Fn(&V) -> Option<Vec<V>>>(
    s: Seq<PatternItem<V>>,
    vs: Seq<V>,
    n: int,
    m: Map<Seq<char>, V>,
    eq: E,
    as_vec: A,
) -> Option<Map<Seq<char>, V>>
    decreases s, n,
{
    if n <= 0 || n > s.len() || n > vs.len() {
        Some(m)
    } else {
        match seq_match_result(s, vs, n - 1, m, eq, as_vec) {
            Some(m1) => match_result(s[n - 1], vs[n - 1], m1, eq, as_vec),
            None => None,
        }
    }
}

/// Once a place fails to match, the whole does.
proof fn lemma_seq_match_fails<V, E: Fn(&V, &V) -> bool, A: Fn(&V) -> Option<Vec<V>>>(
    s: Seq<PatternItem<V>>,
    vs: Seq<V>,
    k: int,
    n: int,
    m: Map<Seq<char>, V>,
    eq: E,
    as_vec: A,
)
    requires
        0 <= k <= n <= s.len(),
        n <= vs.len(),
        seq_match_result(s, vs, k, m, eq, as_vec) is None,
    ensures
        seq_match_result(s, vs, n, m, eq, as_vec) is None,
    decreases n - k,
{
    if k < n {
        lemma_seq_match_fails(s, vs, k, n - 1, m, eq, as_vec);
    }
}

/// `r` is the outcome that `o` describes.
pub open spec fn match_outcome<V>(r: PatternMatchResult<V>, o: Option<Map<Seq<char>, V>>) -> bool {
    match r {
        PatternMatchResult::True(found) => o == Some(found@),
        PatternMatchResult::False => o is None,
    }
}

/// Matches a value against a pattern item, taking the binding map and
/// giving it back with the bindings the match adds, or no match.
pub fn pattern_item_matches_value_with_bindings<
    V: Clone,
    E: Fn(&V, &V) -> bool,
    A: Fn(&V) -> Option<Vec<V>>,
>(
    pattern_item: &PatternItem<V>,
    value: &V,
    binding_map: StrMap<V>,
    eq: &E,
    as_vec: &A,
) -> (r: PatternMatchResult<V>)
    requires
        eq_answers(*eq),
        as_vec_reads(*as_vec),
        clones_equal::<V>(),
    ensures
        match_outcome(r, match_result(*pattern_item, *value, binding_map@, *eq, *as_vec)),
    decreases pattern_item,
{
    let mut binding_map = binding_map;
    match pattern_item {
        PatternItem::Any => PatternMatchResult::True(binding_map),
        PatternItem::Binding(b) => {
            let same: Option<bool> = match binding_map.get(b) {
                Some(bound) => {
                    assert(eq.requires((bound, value)));
                    Some(eq(bound, value))
                },
                None => None,
            };
            match same {
                Some(same) => if same {
                    PatternMatchResult::True(binding_map)
                } else {
                    PatternMatchResult::False
                },
                None => {
                    let copy = value.clone();
                    assert(cloned(*value, copy));
                    binding_map.insert(b.clone(), copy);
                    PatternMatchResult::True(binding_map)
                },
            }
        },
        PatternItem::Value(w) => {
            assert(eq.requires((w, value)));
            if eq(w, value) {
                PatternMatchResult::True(binding_map)
            } else {
                PatternMatchResult::False
            }
        },
        PatternItem::Vec(items) => {
            assert(as_vec.requires((value,)));
            let o = as_vec(value);
            proof {
                lemma_read_vec(*as_vec, *value, o);
            }
            match o {
                Some(vs) => if vs.len() == items.len() {
                    proof {
                        assert(decreases_to!(*pattern_item => (*pattern_item)->Vec_0));
                    }
                    items_match_values_with_bindings(items, &vs, binding_map, eq, as_vec)
                } else {
                    PatternMatchResult::False
                },
                None => PatternMatchResult::False,
            }
        },
    }
}

/// Matches values against the items in their places, in order.
fn items_match_values_with_bindings<V: Clone, E: Fn(&V, &V) -> bool, A: Fn(&V) -> Option<Vec<V>>>(
    items: &Vec<PatternItem<V>>,
    vs: &Vec<V>,
    binding_map: StrMap<V>,
    eq: &E,
    as_vec: &A,
) -> (r: PatternMatchResult<V>)
    requires
        items@.len() == vs@.len(),
        eq_answers(*eq),
        as_vec_reads(*as_vec),
        clones_equal::<V>(),
    ensures
        match_outcome(
            r,
            seq_match_result(items@, vs@, items@.len() as int, binding_map@, *eq, *as_vec),
        ),
    decreases items,
{
    let ghost m0 = binding_map@;
    let mut current = binding_map;
    let mut i: usize = 0;
    while i < items.len()
        invariant
            i <= items.len(),
            items@.len() == vs@.len(),
            eq_answers(*eq),
            as_vec_reads(*as_vec),
            clones_equal::<V>(),
            m0 == binding_map@,
            seq_match_result(items@, vs@, i as int, m0, *eq, *as_vec) == Some(current@),
        decreases items.len() - i,
    {
        proof {
            assert(decreases_to!(items => items[i as int]));
        }
        match pattern_item_matches_value_with_bindings(&items[i], &vs[i], current, eq, as_vec) {
            PatternMatchResult::True(updated) => {
                current = updated;
            },
            PatternMatchResult::False => {
                proof {
                    lemma_seq_match_fails(
                        items@,
                        vs@,
                        i + 1,
                        items@.len() as int,
                        m0,
                        *eq,
                        *as_vec,
                    );
                }
                return PatternMatchResult::False;
            },
        }
        i = i + 1;
    }
    PatternMatchResult::True(current)
}

/// The operations on values behave as functions: `eq` answers one way,
/// `as_vec` reads the same elements and `make_vec` makes the same value each
/// time, all can be called on anything, and a clone of a value is the same
/// value.
pub open spec fn value_ops_sound<
    V: Clone,
    E: Fn(&V, &V) -> bool,
    A: Fn(&V) -> Option<Vec<V>>,
    M: Fn(Vec<V>) -> V,
>(eq: E, as_vec: A, make_vec: M) -> bool {
    &&& eq_answers(eq)
    &&& as_vec_reads(as_vec)
    &&& make_vec_decides(make_vec)
    &&& clones_equal::<V>()
}

/// `r` is the outcome of matching a pattern, with the bindings `m` filled
/// in, against another: a match when the filled-in pattern compares, with
/// the bindings that the unfilled pattern takes from the other; otherwise no
/// match.
pub open spec fn params_match_outcome<
    V: Clone,
    E: Fn(&V, &V) -> bool,
    A: Fn(&V) -> Option<Vec<V>>,
    M: Fn(Vec<V>) -> V,
>(
    mine: Seq<PatternItem<V>>,
    m: Map<Seq<char>, V>,
    other: Seq<PatternItem<V>>,
    allow_unbound: bool,
    allow_different_length: bool,
    eq: E,
    as_vec: A,
    make_vec: M,
    r: PatternMatchResult<V>,
) -> bool {
    match r {
        PatternMatchResult::True(found) => {
            &&& exists|q: Seq<PatternItem<V>>|
                #[trigger] items_filled_copy(mine, q, m) && patterns_compare_answer(
                    q,
                    other,
                    allow_unbound,
                    allow_different_length,
                    eq,
                    as_vec,
                    true,
                )
            &&& found@ == extracted_map(mine, other, as_vec, make_vec)
        },
        PatternMatchResult::False => exists|q: Seq<PatternItem<V>>|
            #[trigger] items_filled_copy(mine, q, m) && patterns_compare_answer(
                q,
                other,
                allow_unbound,
                allow_different_length,
                eq,
                as_vec,
                false,
            ),
    }
}

/// `r` is the outcome of matching two named patterns: no match under
/// different names, otherwise the outcome of matching the patterns.
pub open spec fn named_match_outcome<
    V: Clone,
    E: Fn(&V, &V) -> bool,
    A: Fn(&V) -> Option<Vec<V>>,
    M: Fn(Vec<V>) -> V,
>(
    same_name: bool,
    mine: Seq<PatternItem<V>>,
    m: Map<Seq<char>, V>,
    other: Seq<PatternItem<V>>,
    allow_unbound: bool,
    allow_different_length: bool,
    eq: E,
    as_vec: A,
    make_vec: M,
    r: PatternMatchResult<V>,
) -> bool {
    if same_name {
        params_match_outcome(
            mine,
            m,
            other,
            allow_unbound,
            allow_different_length,
            eq,
            as_vec,
            make_vec,
            r,
        )
    } else {
        r is False
    }
}

/// Matches a pattern, with the bindings filled in, against another.
fn match_params<V: Clone, E: Fn(&V, &V) -> bool, A: Fn(&V) -> Option<Vec<V>>, M: Fn(Vec<V>) -> V>(
    mine: &Vec<PatternItem<V>>,
    bindings: &StrMap<V>,
    other: &Vec<PatternItem<V>>,
    allow_unbound: bool,
    allow_different_length: bool,
    eq: &E,
    as_vec: &A,
    make_vec: &M,
) -> (r: PatternMatchResult<V>)
    requires
        value_ops_sound(*eq, *as_vec, *make_vec),
    ensures
        params_match_outcome(
            mine@,
            bindings@,
            other@,
            allow_unbound,
            allow_different_length,
            *eq,
            *as_vec,
            *make_vec,
            r,
        ),
{
    let filled = filled_copy_items(mine, bindings);
    if compare_patterns(&filled, other, allow_unbound, allow_different_length, eq, as_vec) {
        PatternMatchResult::True(extract_bindings_from_patterns(mine, other, as_vec, make_vec))
    } else {
        PatternMatchResult::False
    }
}

impl<V: Clone> ICst<V> {
    /// Matches this instantiation, with the bindings filled in, against
    /// another: the same state and parameters that compare give the
    /// bindings that this one's parameters take from the other's.
    pub fn matches<E: Fn(&V, &V) -> bool, A: Fn(&V) -> Option<Vec<V>>, M: Fn(Vec<V>) -> V>(
        &self,
        bindings: &StrMap<V>,
        other: &ICst<V>,
        allow_unbound: bool,
        allow_different_length: bool,
        eq: &E,
        as_vec: &A,
        make_vec: &M,
    ) -> (r: PatternMatchResult<V>)
        requires
            value_ops_sound(*eq, *as_vec, *make_vec),
        ensures
            named_match_outcome(
                self.cst_id@ == other.cst_id@,
                self.params@,
                bindings@,
                other.params@,
                allow_unbound,
                allow_different_length,
                *eq,
                *as_vec,
                *make_vec,
                r,
            ),
    {
        if self.cst_id == other.cst_id {
            match_params(
                &self.params,
                bindings,
                &other.params,
                allow_unbound,
                allow_different_length,
                eq,
                as_vec,
                make_vec,
            )
        } else {
            PatternMatchResult::False
        }
    }
}

impl<V: Clone> IMdl<V> {
    /// Matches this instantiated model, with the bindings filled in, against
    /// another: the same model and parameters that compare give the
    /// bindings that this one's parameters take from the other's.
    pub fn matches<E: Fn(&V, &V) -> bool, A: Fn(&V) -> Option<Vec<V>>, M: Fn(Vec<V>) -> V>(
        &self,
        bindings: &StrMap<V>,
        other: &IMdl<V>,
        allow_unbound: bool,
        allow_different_length: bool,
        eq: &E,
        as_vec: &A,
        make_vec: &M,
    ) -> (r: PatternMatchResult<V>)
        requires
            value_ops_sound(*eq, *as_vec, *make_vec),
        ensures
            named_match_outcome(
                self.model_id@ == other.model_id@,
                self.params@,
                bindings@,
                other.params@,
                allow_unbound,
                allow_different_length,
                *eq,
                *as_vec,
                *make_vec,
                r,
            ),
    {
        if self.model_id == other.model_id {
            match_params(
                &self.params,
                bindings,
                &other.params,
                allow_unbound,
                allow_different_length,
                eq,
                as_vec,
                make_vec,
            )
        } else {
            PatternMatchResult::False
        }
    }
}

impl<V: Clone> Command<V> {
    /// Matches this command, with the bindings filled in, against another:
    /// the same name and parameters that compare give the bindings that this
    /// one's parameters take from the other's. The entities are not
    /// compared.
    pub fn matches<E: Fn(&V, &V) -> bool, A: Fn(&V) -> Option<Vec<V>>, M: Fn(Vec<V>) -> V>(
        &self,
        bindings: &StrMap<V>,
        other: &Command<V>,
        allow_unbound: bool,
        allow_different_length: bool,
        eq: &E,
        as_vec: &A,
        make_vec: &M,
    ) -> (r: PatternMatchResult<V>)
        requires
            value_ops_sound(*eq, *as_vec, *make_vec),
        ensures
            named_match_outcome(
                self.name@ == other.name@,
                self.params@,
                bindings@,
                other.params@,
                allow_unbound,
                allow_different_length,
                *eq,
                *as_vec,
                *make_vec,
                r,
            ),
    {
        if self.name == other.name {
            match_params(
                &self.params,
                bindings,
                &other.params,
                allow_unbound,
                allow_different_length,
                eq,
                as_vec,
                make_vec,
            )
        } else {
            PatternMatchResult::False
        }
    }
}

/// Two entities match when both are the same id; a binding on either side
/// matches when unbound items are allowed.
pub open spec fn entities_match(
    e1: EntityPatternValue,
    e2: EntityPatternValue,
    allow_unbound: bool,
) -> bool {
    match (e1, e2) {
        (EntityPatternValue::EntityId(a), EntityPatternValue::EntityId(b)) => a@ == b@,
        _ => allow_unbound,
    }
}

/// `r` is the outcome of matching variable pattern `a`, with the bindings
/// `m` filled in, against `b`: the same variable, entities that match, and
/// a filled-in value that compares give the bindings that `a`'s value takes
/// from `b`'s; anything else gives no match.
pub open spec fn mk_val_match_outcome<
    V: Clone,
    E: Fn(&V, &V) -> bool,
    A: Fn(&V) -> Option<Vec<V>>,
    M: Fn(Vec<V>) -> V,
>(
    a: MkVal<V>,
    m: Map<Seq<char>, V>,
    b: MkVal<V>,
    allow_unbound: bool,
    eq: E,
    as_vec: A,
    make_vec: M,
    r: PatternMatchResult<V>,
) -> bool {
    if a.var_name@ == b.var_name@ && entities_match(a.entity_id, b.entity_id, allow_unbound) {
        match r {
            PatternMatchResult::True(found) => {
                &&& exists|q: PatternItem<V>|
                    #[trigger] item_filled_copy(a.value, q, m) && items_compare_answer(
                        q,
                        b.value,
                        allow_unbound,
                        eq,
                        as_vec,
                        true,
                    )
                &&& found@ == entries_map(extracted_item_pairs(a.value, b.value, as_vec, make_vec))
            },
            PatternMatchResult::False => exists|q: PatternItem<V>|
                #[trigger] item_filled_copy(a.value, q, m) && items_compare_answer(
                    q,
                    b.value,
                    allow_unbound,
                    eq,
                    as_vec,
                    false,
                ),
        }
    } else {
        r is False
    }
}

impl<V: Clone> MkVal<V> {
    /// Matches this variable pattern, with the bindings filled in, against
    /// another: the same variable, entities that match and values that
    /// compare give the bindings that this value takes from the other's.
    pub fn matches<E: Fn(&V, &V) -> bool, A: Fn(&V) -> Option<Vec<V>>, M: Fn(Vec<V>) -> V>(
        &self,
        bindings: &StrMap<V>,
        other: &MkVal<V>,
        allow_unbound: bool,
        eq: &E,
        as_vec: &A,
        make_vec: &M,
    ) -> (r: PatternMatchResult<V>)
        requires
            value_ops_sound(*eq, *as_vec, *make_vec),
        ensures
            mk_val_match_outcome(
                *self,
                bindings@,
                *other,
                allow_unbound,
                *eq,
                *as_vec,
                *make_vec,
                r,
            ),
    {
        let matches_var = self.var_name == other.var_name;
        let matches_entity = match (&self.entity_id, &other.entity_id) {
            (EntityPatternValue::EntityId(e1), EntityPatternValue::EntityId(e2)) => *e1 == *e2,
            _ => allow_unbound,
        };
        assert(matches_entity == entities_match(self.entity_id, other.entity_id, allow_unbound));
        if !matches_var || !matches_entity {
            return PatternMatchResult::False;
        }
        let value = filled_copy(&self.value, bindings);
        if compare_pattern_items(&value, &other.value, allow_unbound, eq, as_vec) {
            let pairs = extract_item_pairs(&self.value, &other.value, as_vec, make_vec);
            PatternMatchResult::True(pairs_to_map(pairs))
        } else {
            PatternMatchResult::False
        }
    }
}

/// `r` is the outcome of matching left-hand side `l1`, with the bindings
/// `m` filled in, against `l2` of the same kind, unbound items allowed and
/// lengths equal; different kinds do not match.
pub open spec fn left_match_outcome<
    V: Clone,
    E: Fn(&V, &V) -> bool,
    A: Fn(&V) -> Option<Vec<V>>,
    M: Fn(Vec<V>) -> V,
>(
    l1: MdlLeftValue<V>,
    m: Map<Seq<char>, V>,
    l2: MdlLeftValue<V>,
    eq: E,
    as_vec: A,
    make_vec: M,
    r: PatternMatchResult<V>,
) -> bool {
    match (l1, l2) {
        (MdlLeftValue::ICst(a), MdlLeftValue::ICst(b)) => named_match_outcome(
            a.cst_id@ == b.cst_id@,
            a.params@,
            m,
            b.params@,
            true,
            false,
            eq,
            as_vec,
            make_vec,
            r,
        ),
        (MdlLeftValue::Command(a), MdlLeftValue::Command(b)) => named_match_outcome(
            a.name@ == b.name@,
            a.params@,
            m,
            b.params@,
            true,
            false,
            eq,
            as_vec,
            make_vec,
            r,
        ),
        (MdlLeftValue::MkVal(a), MdlLeftValue::MkVal(b)) => mk_val_match_outcome(
            a,
            m,
            b,
            true,
            eq,
            as_vec,
            make_vec,
            r,
        ),
        (MdlLeftValue::IMdl(a), MdlLeftValue::IMdl(b)) => named_match_outcome(
            a.model_id@ == b.model_id@,
            a.params@,
            m,
            b.params@,
            true,
            false,
            eq,
            as_vec,
            make_vec,
            r,
        ),
        _ => r is False,
    }
}

impl<V: Clone> MdlLeftValue<V> {
    /// Matches this left-hand side against another of the same kind, with
    /// unbound items allowed and lengths equal; different kinds do not
    /// match.
    pub fn matches<E: Fn(&V, &V) -> bool, A: Fn(&V) -> Option<Vec<V>>, M: Fn(Vec<V>) -> V>(
        &self,
        bindings: &StrMap<V>,
        other: &MdlLeftValue<V>,
        eq: &E,
        as_vec: &A,
        make_vec: &M,
    ) -> (r: PatternMatchResult<V>)
        requires
            value_ops_sound(*eq, *as_vec, *make_vec),
        ensures
            left_match_outcome(*self, bindings@, *other, *eq, *as_vec, *make_vec, r),
    {
        match (self, other) {
            (MdlLeftValue::ICst(a), MdlLeftValue::ICst(b)) => a.matches(
                bindings,
                b,
                true,
                false,
                eq,
                as_vec,
                make_vec,
            ),
            (MdlLeftValue::Command(a), MdlLeftValue::Command(b)) => a.matches(
                bindings,
                b,
                true,
                false,
                eq,
                as_vec,
                make_vec,
            ),
            (MdlLeftValue::MkVal(a), MdlLeftValue::MkVal(b)) => a.matches(
                bindings,
                b,
                true,
                eq,
                as_vec,
                make_vec,
            ),
            (MdlLeftValue::IMdl(a), MdlLeftValue::IMdl(b)) => a.matches(
                bindings,
                b,
                true,
                false,
                eq,
                as_vec,
                make_vec,
            ),
            _ => PatternMatchResult::False,
        }
    }
}

impl<V: Clone> MdlRightValue<V> {
    /// Matches this right-hand side against another of the same kind, with
    /// unbound items allowed and lengths equal; different kinds do not
    /// match.
    pub fn matches<E: Fn(&V, &V) -> bool, A: Fn(&V) -> Option<Vec<V>>, M: Fn(Vec<V>) -> V>(
        &self,
        bindings: &StrMap<V>,
        other: &MdlRightValue<V>,
        eq: &E,
        as_vec: &A,
        make_vec: &M,
    ) -> (r: PatternMatchResult<V>)
        requires
            value_ops_sound(*eq, *as_vec, *make_vec),
        ensures
            match (*self, *other) {
                (MdlRightValue::IMdl(a), MdlRightValue::IMdl(b)) => named_match_outcome(
                    a.model_id@ == b.model_id@,
                    a.params@,
                    bindings@,
                    b.params@,
                    true,
                    false,
                    *eq,
                    *as_vec,
                    *make_vec,
                    r,
                ),
                (MdlRightValue::MkVal(a), MdlRightValue::MkVal(b)) => mk_val_match_outcome(
                    a,
                    bindings@,
                    b,
                    true,
                    *eq,
                    *as_vec,
                    *make_vec,
                    r,
                ),
                _ => r is False,
            },
    {
        match (self, other) {
            (MdlRightValue::IMdl(a), MdlRightValue::IMdl(b)) => a.matches(
                bindings,
                b,
                true,
                false,
                eq,
                as_vec,
                make_vec,
            ),
            (MdlRightValue::MkVal(a), MdlRightValue::MkVal(b)) => a.matches(
                bindings,
                b,
                true,
                eq,
                as_vec,
                make_vec,
            ),
            _ => PatternMatchResult::False,
        }
    }
}

/// The parameters of the instantiation that a bound state gives: for each
/// binding of the state, its value where it is bound and a wildcard
/// elsewhere.
pub open spec fn bound_icst_params<V>(names: Seq<Seq<char>>, m: Map<Seq<char>, V>) -> Seq<
    PatternItem<V>,
> {
    Seq::new(
        names.len(),
        |i: int|
            if m.contains_key(names[i]) {
                PatternItem::Value(m[names[i]])
            } else {
                PatternItem::Any
            },
    )
}

impl<V: Clone> BoundCst<V> {
    /// Matches the instantiation that this bound state gives against
    /// `icst`, unbound items allowed and lengths free: the same state and
    /// parameters that compare give the bindings that `icst`'s parameters
    /// take from the state's.
    pub fn match_and_get_bindings_for_icst<
        E: Fn(&V, &V) -> bool,
        A: Fn(&V) -> Option<Vec<V>>,
        M: Fn(Vec<V>) -> V,
    >(&self, icst: &ICst<V>, eq: &E, as_vec: &A, make_vec: &M) -> (r: PatternMatchResult<V>)
        requires
            value_ops_sound(*eq, *as_vec, *make_vec),
        ensures
            ({
                let own = bound_icst_params(cst_binding_params(self.cst), self.bindings@);
                if icst.cst_id@ == self.cst.cst_id@ {
                    match r {
                        PatternMatchResult::True(found) => {
                            &&& patterns_compare_answer(
                                own,
                                icst.params@,
                                true,
                                true,
                                *eq,
                                *as_vec,
                                true,
                            )
                            &&& found@ == extracted_map(icst.params@, own, *as_vec, *make_vec)
                        },
                        PatternMatchResult::False => patterns_compare_answer(
                            own,
                            icst.params@,
                            true,
                            true,
                            *eq,
                            *as_vec,
                            false,
                        ),
                    }
                } else {
                    r is False
                }
            }),
    {
        let self_icst = self.icst_for_cst();
        let ghost own = bound_icst_params(cst_binding_params(self.cst), self.bindings@);
        assert forall|i: int| 0 <= i < own.len() implies #[trigger] self_icst.params@[i]
            == own[i] by {
            let b = cst_binding_params(self.cst)[i];
            if self.bindings@.contains_key(b) {
                assert(cloned(self.bindings@[b], self_icst.params@[i]->Value_0));
            }
        }
        assert(self_icst.params@ =~= own);
        if icst.cst_id == self_icst.cst_id && compare_patterns(
            &self_icst.params,
            &icst.params,
            true,
            true,
            eq,
            as_vec,
        ) {
            let bindings = extract_bindings_from_patterns(
                &icst.params,
                &self_icst.params,
                as_vec,
                make_vec,
            );
            PatternMatchResult::True(bindings)
        } else {
            PatternMatchResult::False
        }
    }
}

/// The value of a pattern item with the bindings of `m` filled in: a bound
/// binding's value, a value itself, and for a nested pattern the vector that
/// `make_vec` makes of its items' values; none for a wildcard, an unbound
/// binding, or a nested pattern with an item that has none.
pub open spec fn value_with_bindings<V, M: Fn(Vec<V>) -> V>(
    p: PatternItem<V>,
    m: Map<Seq<char>, V>,
    make_vec: M,
) -> Option<V>
    decreases p,
{
    match p {
        PatternItem::Any => None,
        PatternItem::Binding(b) => if m.contains_key(b@) {
            Some(m[b@])
        } else {
            None
        },
        PatternItem::Value(v) => Some(v),
        PatternItem::Vec(items) => {
            proof {
                assert(decreases_to!(items => items@));
            }
            match values_with_bindings(items@, m, make_vec) {
                Some(vs) => Some(made_vec(make_vec, vs)),
                None => None,
            }
        },
    }
}

/// The values of a pattern's items with the bindings of `m` filled in, in
/// order, if each has one.
pub open spec fn values_with_bindings<V, M: Fn(Vec<V>) -> V>(
    s: Seq<PatternItem<V>>,
    m: Map<Seq<char>, V>,
    make_vec: M,
) -> Option<Seq<V>>
    decreases s,
{
    if s.len() == 0 {
        Some(seq![])
    } else {
        match (values_with_bindings(s.drop_last(), m, make_vec), value_with_bindings(s.last(), m, make_vec)) {
            (Some(vs), Some(v)) => Some(vs.push(v)),
            _ => None,
        }
    }
}

/// A pattern whose first items have no values under the bindings has none.
proof fn lemma_values_with_bindings_prefix<V, M: Fn(Vec<V>) -> V>(
    s: Seq<PatternItem<V>>,
    k: int,
    m: Map<Seq<char>, V>,
    make_vec: M,
)
    requires
        0 <= k <= s.len(),
        values_with_bindings(s.subrange(0, k), m, make_vec) is None,
    ensures
        values_with_bindings(s, m, make_vec) is None,
    decreases s.len(),
{
    if k < s.len() {
        assert(s.drop_last().subrange(0, k) =~= s.subrange(0, k));
        lemma_values_with_bindings_prefix(s.drop_last(), k, m, make_vec);
    } else {
        assert(s.subrange(0, k) =~= s);
    }
}

impl<V: Clone> PatternItem<V> {
    /// The value of the item with the bindings filled in, if it has one.
    pub fn get_value_with_bindings<M: Fn(Vec<V>) -> V>(
        &self,
        bindings: &StrMap<V>,
        make_vec: &M,
    ) -> (r: Option<V>)
        requires
            make_vec_decides(*make_vec),
            clones_equal::<V>(),
        ensures
            r == value_with_bindings(*self, bindings@, *make_vec),
        decreases self,
    {
        match self {
            PatternItem::Any => None,
            PatternItem::Binding(b) => match bindings.get(b) {
                Some(v) => {
                    let c = v.clone();
                    assert(cloned(*v, c));
                    Some(c)
                },
                None => None,
            },
            PatternItem::Value(v) => {
                let c = v.clone();
                assert(cloned(*v, c));
                Some(c)
            },
            PatternItem::Vec(items) => {
                let mut out: Vec<V> = Vec::new();
                let mut i: usize = 0;
                assert(items@.subrange(0, 0) =~= Seq::<PatternItem<V>>::empty());
                while i < items.len()
                    invariant
                        i <= items.len(),
                        *self == PatternItem::Vec(*items),
                        make_vec_decides(*make_vec),
                        clones_equal::<V>(),
                        values_with_bindings(items@.subrange(0, i as int), bindings@, *make_vec)
                            == Some(out@),
                    decreases items.len() - i,
                {
                    proof {
                        assert(decreases_to!(*self => (*self)->Vec_0));
                        assert(decreases_to!(items => items[i as int]));
                    }
                    let ghost prefix = items@.subrange(0, i + 1);
                    assert(prefix.drop_last() =~= items@.subrange(0, i as int));
                    assert(prefix.last() == items@[i as int]);
                    match items[i].get_value_with_bindings(bindings, make_vec) {
                        Some(v) => {
                            out.push(v);
                        },
                        None => {
                            proof {
                                lemma_values_with_bindings_prefix(
                                    items@,
                                    i + 1,
                                    bindings@,
                                    *make_vec,
                                );
                            }
                            return None;
                        },
                    }
                    i = i + 1;
                }
                assert(items@.subrange(0, i as int) =~= items@);
                let ghost w = out;
                let v = make_vec(out);
                proof {
                    lemma_made_vec(*make_vec, w, v);
                }
                Some(v)
            },
        }
    }
}

/// The item is no wildcard, nor holds one at any depth.
pub open spec fn item_no_wildcard<V>(p: PatternItem<V>) -> bool
    decreases p,
{
    match p {
        PatternItem::Any => false,
        PatternItem::Vec(items) => forall|i: int|
            0 <= i < items@.len() ==> {
                proof {
                    assert(decreases_to!(items => items@[i]));
                }
                item_no_wildcard(#[trigger] items@[i])
            },
        _ => true,
    }
}

/// The values bound into a pattern's items, in order: a binding's value if
/// it is bound, nothing if not, a value itself, and for a nested pattern the
/// vector `make_vec` makes of the values bound into it.
pub open spec fn bound_values<V, M: Fn(Vec<V>) -> V>(
    s: Seq<PatternItem<V>>,
    m: Map<Seq<char>, V>,
    make_vec: M,
) -> Seq<V>
    decreases s,
{
    if s.len() == 0 {
        seq![]
    } else {
        let init = bound_values(s.drop_last(), m, make_vec);
        match s.last() {
            PatternItem::Binding(b) => if m.contains_key(b@) {
                init.push(m[b@])
            } else {
                init
            },
            PatternItem::Value(v) => init.push(v),
            PatternItem::Vec(items) => {
                proof {
                    assert(decreases_to!(s => s.last()));
                    assert(decreases_to!(s.last() => items));
                    assert(decreases_to!(items => items@));
                }
                init.push(made_vec(make_vec, bound_values(items@, m, make_vec)))
            },
            PatternItem::Any => init,
        }
    }
}

/// The values that the bindings give the pattern's items, in order: a bound
/// binding gives its value and an unbound one nothing, a value gives itself
/// and a nested pattern the vector of its own bound values. A wildcard has
/// no value to give, so the pattern holds none.
pub fn bind_values_to_pattern<V: Clone, M: Fn(Vec<V>) -> V>(
    pattern: &Vec<PatternItem<V>>,
    bindings: &StrMap<V>,
    make_vec: &M,
) -> (r: Vec<V>)
    requires
        forall|i: int| 0 <= i < pattern@.len() ==> item_no_wildcard(#[trigger] pattern@[i]),
        make_vec_decides(*make_vec),
        clones_equal::<V>(),
    ensures
        r@ == bound_values(pattern@, bindings@, *make_vec),
    decreases pattern,
{
    let mut out: Vec<V> = Vec::new();
    let mut i: usize = 0;
    assert(pattern@.subrange(0, 0) =~= Seq::<PatternItem<V>>::empty());
    while i < pattern.len()
        invariant
            i <= pattern.len(),
            forall|j: int| 0 <= j < pattern@.len() ==> item_no_wildcard(#[trigger] pattern@[j]),
            make_vec_decides(*make_vec),
            clones_equal::<V>(),
            out@ == bound_values(pattern@.subrange(0, i as int), bindings@, *make_vec),
        decreases pattern.len() - i,
    {
        let ghost prefix = pattern@.subrange(0, i + 1);
        assert(prefix.drop_last() =~= pattern@.subrange(0, i as int));
        assert(prefix.last() == pattern@[i as int]);
        assert(item_no_wildcard(pattern@[i as int]));
        match &pattern[i] {
            PatternItem::Binding(b) => match bindings.get(b) {
                Some(v) => {
                    let c = v.clone();
                    assert(cloned(*v, c));
                    out.push(c);
                },
                None => {},
            },
            PatternItem::Value(v) => {
                let c = v.clone();
                assert(cloned(*v, c));
                out.push(c);
            },
            PatternItem::Vec(items) => {
                proof {
                    assert(decreases_to!(pattern => pattern[i as int]));
                    assert(decreases_to!(pattern[i as int] => pattern[i as int]->Vec_0));
                }
                let inner = bind_values_to_pattern(items, bindings, make_vec);
                let ghost w = inner;
                let v = make_vec(inner);
                proof {
                    lemma_made_vec(*make_vec, w, v);
                }
                out.push(v);
            },
            PatternItem::Any => {},
        }
        i = i + 1;
    }
    assert(pattern@.subrange(0, i as int) =~= pattern@);
    out
}

/// How deeply vector patterns nest in an item: none for an item that is not
/// a vector.
pub open spec fn item_depth<V>(p: PatternItem<V>) -> nat
    decreases p,
{
    match p {
        PatternItem::Vec(items) => {
            proof {
                assert(decreases_to!(items => items@));
            }
            1 + items_depth(items@)
        },
        _ => 0,
    }
}

/// The deepest nesting among the items of a pattern.
pub open spec fn items_depth<V>(s: Seq<PatternItem<V>>) -> nat
    decreases s,
{
    if s.len() == 0 {
        0
    } else {
        let last = item_depth(s.last());
        let init = items_depth(s.drop_last());
        if last >= init {
            last
        } else {
            init
        }
    }
}

/// The larger of two depths.
pub open spec fn deeper(a: nat, b: nat) -> nat {
    if a >= b {
        a
    } else {
        b
    }
}

/// No item of a pattern nests deeper than the pattern.
pub proof fn lemma_item_depth_bounded<V>(s: Seq<PatternItem<V>>, i: int)
    requires
        0 <= i < s.len(),
    ensures
        item_depth(s[i]) <= items_depth(s),
    decreases s.len(),
{
    if i < s.len() - 1 {
        lemma_item_depth_bounded(s.drop_last(), i);
        assert(s.drop_last()[i] == s[i]);
    }
}

/// A pattern of plain values does not nest.
pub proof fn lemma_values_depth<V>(s: Seq<PatternItem<V>>)
    requires
        forall|i: int| 0 <= i < s.len() ==> (#[trigger] s[i]) is Value,
    ensures
        items_depth(s) == 0,
    decreases s.len(),
{
    if s.len() > 0 {
        assert forall|i: int| 0 <= i < s.drop_last().len() implies (#[trigger] s.drop_last()[i]) is Value by {
            assert(s.drop_last()[i] == s[i]);
        }
        lemma_values_depth(s.drop_last());
        assert(s[s.len() - 1] is Value);
        assert(item_depth(s.last()) == 0);
        assert(items_depth(s.drop_last()) == 0);
    }
}

/// The item at a place of a pattern, and a wildcard past its end.
pub open spec fn at_or_any<V>(s: Seq<PatternItem<V>>, i: int) -> PatternItem<V> {
    if 0 <= i < s.len() {
        s[i]
    } else {
        PatternItem::Any
    }
}

/// Each value as a value item.
pub open spec fn values_as_items<V>(vs: Seq<V>) -> Seq<PatternItem<V>> {
    vs.map_values(|v: V| PatternItem::Value(v))
}

/// `r` combines the bound values of two items, preferring the first: two
/// vector patterns combine place by place, and so does a vector pattern with
/// a value that `as_vec` reads as a vector; otherwise a value or vector
/// pattern wins over a binding or wildcard, a binding over a wildcard, and
/// the first item over the second.
pub open spec fn item_combined<V, A: Fn(&V) -> Option<Vec<V>>>(
    a: PatternItem<V>,
    b: PatternItem<V>,
    r: PatternItem<V>,
    as_vec: A,
) -> bool
    decreases deeper(item_depth(a), item_depth(b)), 0nat,
{
    match (a, b) {
        (PatternItem::Vec(x), PatternItem::Vec(y)) => r is Vec && items_combined(
            x@,
            y@,
            r->Vec_0@,
            as_vec,
        ),
        (PatternItem::Value(v), PatternItem::Vec(y)) => match read_vec(as_vec, v) {
            Some(vs) => {
                proof {
                    lemma_values_depth(values_as_items(vs));
                }
                r is Vec && items_combined(values_as_items(vs), y@, r->Vec_0@, as_vec)
            },
            None => r == a,
        },
        (PatternItem::Vec(x), PatternItem::Value(w)) => match read_vec(as_vec, w) {
            Some(ws) => {
                proof {
                    lemma_values_depth(values_as_items(ws));
                }
                r is Vec && items_combined(x@, values_as_items(ws), r->Vec_0@, as_vec)
            },
            None => r == a,
        },
        (PatternItem::Value(_), _) => r == a,
        (PatternItem::Vec(_), _) => r == a,
        (_, PatternItem::Value(_)) => r == b,
        (_, PatternItem::Vec(_)) => r == b,
        (PatternItem::Binding(_), _) => r == a,
        (PatternItem::Any, _) => r == b,
    }
}

/// `r` combines two patterns place by place, as long as the longer one, the
/// shorter one read as wildcards past its end.
pub open spec fn items_combined<V, A: Fn(&V) -> Option<Vec<V>>>(
    s1: Seq<PatternItem<V>>,
    s2: Seq<PatternItem<V>>,
    r: Seq<PatternItem<V>>,
    as_vec: A,
) -> bool
    decreases deeper(items_depth(s1), items_depth(s2)), 1nat,
{
    &&& r.len() == if s1.len() >= s2.len() {
        s1.len()
    } else {
        s2.len()
    }
    &&& forall|i: int|
        0 <= i < r.len() ==> {
            proof {
                if 0 <= i < s1.len() {
                    lemma_item_depth_bounded(s1, i);
                }
                if 0 <= i < s2.len() {
                    lemma_item_depth_bounded(s2, i);
                }
            }
            item_combined(at_or_any(s1, i), at_or_any(s2, i), #[trigger] r[i], as_vec)
        }
}

/// What is left of a pattern once its first `k` items are taken.
pub open spec fn tail_from<V>(s: Seq<PatternItem<V>>, k: int) -> Seq<PatternItem<V>> {
    if k <= s.len() {
        s.subrange(k, s.len() as int)
    } else {
        seq![]
    }
}

/// Combines the bound values of two patterns to fill in as many values as
/// possible; where both are bound, the first pattern's value is kept. The
/// shorter pattern is read as wildcards past its end.
pub fn combine_pattern_bindings<V, A: Fn(&V) -> Option<Vec<V>>>(
    pattern1: Vec<PatternItem<V>>,
    pattern2: Vec<PatternItem<V>>,
    as_vec: &A,
) -> (r: Vec<PatternItem<V>>)
    requires
        as_vec_reads(*as_vec),
    ensures
        items_combined(pattern1@, pattern2@, r@, *as_vec),
    decreases deeper(items_depth(pattern1@), items_depth(pattern2@)),
{
    let ghost o1 = pattern1@;
    let ghost o2 = pattern2@;
    let n: usize = if pattern1.len() >= pattern2.len() {
        pattern1.len()
    } else {
        pattern2.len()
    };
    let mut rest1 = pattern1;
    let mut rest2 = pattern2;
    let mut out: Vec<PatternItem<V>> = Vec::new();
    let mut k: usize = 0;
    while k < n
        invariant
            as_vec_reads(*as_vec),
            o1 == pattern1@,
            o2 == pattern2@,
            n == if o1.len() >= o2.len() {
                o1.len()
            } else {
                o2.len()
            },
            k <= n,
            out@.len() == k,
            rest1@ == tail_from(o1, k as int),
            rest2@ == tail_from(o2, k as int),
            forall|j: int|
                0 <= j < k ==> item_combined(
                    at_or_any(o1, j),
                    at_or_any(o2, j),
                    #[trigger] out@[j],
                    *as_vec,
                ),
        decreases n - k,
    {
        proof {
            if (k as int) < o1.len() {
                lemma_item_depth_bounded(o1, k as int);
            }
            if (k as int) < o2.len() {
                lemma_item_depth_bounded(o2, k as int);
            }
        }
        let a = if rest1.len() > 0 {
            rest1.remove(0)
        } else {
            PatternItem::Any
        };
        let b = if rest2.len() > 0 {
            rest2.remove(0)
        } else {
            PatternItem::Any
        };
        assert(a == at_or_any(o1, k as int));
        assert(b == at_or_any(o2, k as int));
        assert(rest1@ =~= tail_from(o1, k + 1));
        assert(rest2@ =~= tail_from(o2, k + 1));
        let c = match a {
            PatternItem::Vec(x) => match b {
                PatternItem::Vec(y) => PatternItem::Vec(combine_pattern_bindings(x, y, as_vec)),
                PatternItem::Value(w) => {
                    assert(as_vec.requires((&w,)));
                    let o = as_vec(&w);
                    proof {
                        lemma_read_vec(*as_vec, w, o);
                    }
                    match o {
                        Some(ws) => {
                            let derived = value_vec_to_pattern_vec(ws);
                            proof {
                                lemma_values_depth(derived@);
                            }
                            PatternItem::Vec(combine_pattern_bindings(x, derived, as_vec))
                        },
                        None => PatternItem::Vec(x),
                    }
                },
                _ => PatternItem::Vec(x),
            },
            PatternItem::Value(v) => match b {
                PatternItem::Vec(y) => {
                    assert(as_vec.requires((&v,)));
                    let o = as_vec(&v);
                    proof {
                        lemma_read_vec(*as_vec, v, o);
                    }
                    match o {
                        Some(vs) => {
                            let derived = value_vec_to_pattern_vec(vs);
                            proof {
                                lemma_values_depth(derived@);
                            }
                            PatternItem::Vec(combine_pattern_bindings(derived, y, as_vec))
                        },
                        None => PatternItem::Value(v),
                    }
                },
                _ => PatternItem::Value(v),
            },
            PatternItem::Binding(name) => match b {
                PatternItem::Value(w) => PatternItem::Value(w),
                PatternItem::Vec(y) => PatternItem::Vec(y),
                _ => PatternItem::Binding(name),
            },
            PatternItem::Any => b,
        };
        out.push(c);
        k = k + 1;
    }
    out
}

/// When `eq` and `as_vec` behave as functions, matching a value against a
/// pattern item never answers both ways.
pub proof fn lemma_value_match_exclusive<V, E: Fn(&V, &V) -> bool, A: Fn(&V) -> Option<Vec<V>>>(
    v: V,
    p: PatternItem<V>,
    eq: E,
    as_vec: A,
)
    requires
        eq_answers(eq),
        as_vec_reads(as_vec),
    ensures
        !(value_match_answer(v, p, eq, as_vec, true) && value_match_answer(v, p, eq, as_vec, false)),
    decreases p, 1int,
{
    match p {
        PatternItem::Value(w) => {
            assert(eq.requires((&v, &w)));
        },
        PatternItem::Vec(items) => {
            if value_match_answer(v, p, eq, as_vec, true) && value_match_answer(
                v,
                p,
                eq,
                as_vec,
                false,
            ) {
                let o1 = choose|o: Option<Vec<V>>|
                    #![trigger as_vec.ensures((&v,), o)]
                    as_vec.ensures((&v,), o) && match o {
                        Some(vs) => values_match_answer(vs@, items@, eq, as_vec, true),
                        None => !true,
                    };
                let o2 = choose|o: Option<Vec<V>>|
                    #![trigger as_vec.ensures((&v,), o)]
                    as_vec.ensures((&v,), o) && match o {
                        Some(vs) => values_match_answer(vs@, items@, eq, as_vec, false),
                        None => !false,
                    };
                assert(as_vec.requires((&v,)));
                assert(seq_view_of(o1) == seq_view_of(o2));
                match (o1, o2) {
                    (Some(a), Some(b)) => {
                        assert(decreases_to!(p => items));
                        assert(decreases_to!(items => items@));
                        lemma_values_match_exclusive(a@, items@, eq, as_vec);
                    },
                    _ => {},
                }
            }
        },
        _ => {},
    }
}

/// When `eq` and `as_vec` behave as functions, matching values against a
/// pattern never answers both ways.
pub proof fn lemma_values_match_exclusive<V, E: Fn(&V, &V) -> bool, A: Fn(&V) -> Option<Vec<V>>>(
    vs: Seq<V>,
    items: Seq<PatternItem<V>>,
    eq: E,
    as_vec: A,
)
    requires
        eq_answers(eq),
        as_vec_reads(as_vec),
    ensures
        !(values_match_answer(vs, items, eq, as_vec, true) && values_match_answer(
            vs,
            items,
            eq,
            as_vec,
            false,
        )),
    decreases items, 0int,
{
    if vs.len() == items.len() && values_match_answer(vs, items, eq, as_vec, true)
        && values_match_answer(vs, items, eq, as_vec, false) {
        let i = choose|i: int|
            0 <= i < items.len() && value_match_answer(vs[i], #[trigger] items[i], eq, as_vec, false);
        assert(value_match_answer(vs[i], items[i], eq, as_vec, true));
        lemma_value_match_exclusive(vs[i], items[i], eq, as_vec);
    }
}

/// Turning values into value items and back gives the same values.
pub proof fn lemma_values_round_trip<V, M: Fn(Vec<V>) -> V>(vs: Seq<V>, make_vec: M)
    ensures
        pattern_values(values_as_items(vs), make_vec) == Some(vs),
    decreases vs.len(),
{
    if vs.len() > 0 {
        lemma_values_round_trip(vs.drop_last(), make_vec);
        assert(values_as_items(vs).drop_last() =~= values_as_items(vs.drop_last()));
        assert(vs.drop_last().push(vs.last()) =~= vs);
        let items = values_as_items(vs);
        assert(items.len() == vs.len());
        assert(items.last() == PatternItem::Value(vs.last()));
        assert(item_value(items.last(), make_vec) == Some(vs.last()));
    } else {
        assert(values_as_items(vs) =~= Seq::<PatternItem<V>>::empty());
    }
}

/// Wildcards fill in nothing: combining a pattern with wildcards, on
/// either side and as long as the pattern or shorter, gives the pattern.
pub proof fn lemma_combine_with_wildcards<V, A: Fn(&V) -> Option<Vec<V>>>(
    s: Seq<PatternItem<V>>,
    n: nat,
    r1: Seq<PatternItem<V>>,
    r2: Seq<PatternItem<V>>,
    as_vec: A,
)
    requires
        n <= s.len(),
        items_combined(s, Seq::new(n, |i: int| PatternItem::<V>::Any), r1, as_vec),
        items_combined(Seq::new(n, |i: int| PatternItem::<V>::Any), s, r2, as_vec),
    ensures
        r1 == s,
        r2 == s,
{
    let any = Seq::new(n, |i: int| PatternItem::<V>::Any);
    assert forall|i: int| 0 <= i < s.len() implies r1[i] == s[i] && r2[i] == s[i] by {
        assert(at_or_any(s, i) == s[i]);
        assert(at_or_any(any, i) is Any);
        assert(item_combined(at_or_any(s, i), at_or_any(any, i), r1[i], as_vec));
        assert(item_combined(at_or_any(any, i), at_or_any(s, i), r2[i], as_vec));
    }
    assert(r1 =~= s);
    assert(r2 =~= s);
}

/// Two patterns alike item by item: nested patterns alike, every other
/// item equal.
pub open spec fn items_alike<V>(s: Seq<PatternItem<V>>, t: Seq<PatternItem<V>>) -> bool
    decreases items_depth(s), 1nat,
{
    &&& t.len() == s.len()
    &&& forall|i: int|
        0 <= i < s.len() ==> {
            proof {
                lemma_item_depth_bounded(s, i);
            }
            item_alike(#[trigger] s[i], t[i])
        }
}

/// Two pattern items alike: nested patterns alike, anything else equal.
pub open spec fn item_alike<V>(a: PatternItem<V>, b: PatternItem<V>) -> bool
    decreases item_depth(a), 0nat,
{
    match a {
        PatternItem::Vec(x) => b is Vec && items_alike(x@, b->Vec_0@),
        _ => b == a,
    }
}

/// Combining a pattern with the empty pattern, on either side, gives the
/// pattern: the empty pattern is an identity of `combine_pattern_bindings`.
pub proof fn lemma_combine_with_empty<V, A: Fn(&V) -> Option<Vec<V>>>(
    s: Seq<PatternItem<V>>,
    r1: Seq<PatternItem<V>>,
    r2: Seq<PatternItem<V>>,
    as_vec: A,
)
    requires
        items_combined(s, Seq::empty(), r1, as_vec),
        items_combined(Seq::empty(), s, r2, as_vec),
    ensures
        r1 == s,
        r2 == s,
{
    assert(Seq::new(0, |i: int| PatternItem::<V>::Any) =~= Seq::<PatternItem<V>>::empty());
    lemma_combine_with_wildcards(s, 0, r1, r2, as_vec);
}

/// Combining a pattern with itself gives a pattern alike: combining is
/// idempotent.
pub proof fn lemma_combine_idempotent<V, A: Fn(&V) -> Option<Vec<V>>>(
    s: Seq<PatternItem<V>>,
    r: Seq<PatternItem<V>>,
    as_vec: A,
)
    requires
        items_combined(s, s, r, as_vec),
    ensures
        items_alike(s, r),
    decreases items_depth(s), 1nat,
{
    assert forall|i: int| 0 <= i < s.len() implies item_alike(#[trigger] s[i], r[i]) by {
        lemma_item_depth_bounded(s, i);
        assert(at_or_any(s, i) == s[i]);
        assert(item_combined(at_or_any(s, i), at_or_any(s, i), r[i], as_vec));
        lemma_item_combined_idempotent(s[i], r[i], as_vec);
    }
}

/// Combining an item with itself gives an item alike.
proof fn lemma_item_combined_idempotent<V, A: Fn(&V) -> Option<Vec<V>>>(
    a: PatternItem<V>,
    r: PatternItem<V>,
    as_vec: A,
)
    requires
        item_combined(a, a, r, as_vec),
    ensures
        item_alike(a, r),
    decreases item_depth(a), 0nat,
{
    match a {
        PatternItem::Vec(x) => {
            lemma_combine_idempotent(x@, r->Vec_0@, as_vec);
        },
        _ => {},
    }
}

/// `r` is an answer that checking a fact against the state's variables may
/// give: the fact's entity must be a known entity, the state must hold its
/// variable, and the held value must match the fact's value pattern.
pub open spec fn fact_holds_answer<V: Clone, E: Fn(&V, &V) -> bool, A: Fn(&V) -> Option<Vec<V>>>(
    variables: Map<(Seq<char>, Seq<char>), V>,
    f: Fact<MkVal<V>>,
    eq: E,
    as_vec: A,
    r: bool,
) -> bool {
    match f.pattern.entity_id {
        EntityPatternValue::EntityId(id) => {
            let key = (id@, f.pattern.var_name@);
            if variables.contains_key(key) {
                value_match_answer(variables[key], f.pattern.value, eq, as_vec, r)
            } else {
                !r
            }
        },
        EntityPatternValue::Binding(_) => !r,
    }
}

/// Whether each of the facts holds in the state's variables, keyed by
/// entity and variable: a fact whose entity is a binding does not.
pub fn state_matches_facts<V: Clone, E: Fn(&V, &V) -> bool, A: Fn(&V) -> Option<Vec<V>>>(
    variables: &KeyMap<(String, String), V>,
    facts: &Vec<Fact<MkVal<V>>>,
    eq: &E,
    as_vec: &A,
) -> (r: bool)
    requires
        value_ops_callable(*eq, *as_vec),
    ensures
        r ==> forall|i: int|
            0 <= i < facts@.len() ==> fact_holds_answer(
                variables@,
                #[trigger] facts@[i],
                *eq,
                *as_vec,
                true,
            ),
        !r ==> exists|i: int|
            0 <= i < facts@.len() && fact_holds_answer(
                variables@,
                #[trigger] facts@[i],
                *eq,
                *as_vec,
                false,
            ),
{
    let mut i: usize = 0;
    while i < facts.len()
        invariant
            i <= facts.len(),
            value_ops_callable(*eq, *as_vec),
            forall|j: int|
                0 <= j < i ==> fact_holds_answer(
                    variables@,
                    #[trigger] facts@[j],
                    *eq,
                    *as_vec,
                    true,
                ),
        decreases facts.len() - i,
    {
        let f = &facts[i];
        let holds = match &f.pattern.entity_id {
            EntityPatternValue::EntityId(id) => match variables.get(
                &(id.clone(), f.pattern.var_name.clone()),
            ) {
                Some(v) => value_matches_pub(v, &f.pattern.value, eq, as_vec),
                None => false,
            },
            EntityPatternValue::Binding(_) => false,
        };
        if !holds {
            assert(fact_holds_answer(variables@, facts@[i as int], *eq, *as_vec, false));
            return false;
        }
        i = i + 1;
    }
    true
}

/// `r` is an answer that comparing two pattern items for equality may
/// give: the same kind of item, the same binding name, values that `eq`
/// answers equal, nested patterns of the same length equal item by item.
pub open spec fn items_equal_answer<V, E: Fn(&V, &V) -> bool>(
    a: PatternItem<V>,
    b: PatternItem<V>,
    eq: E,
    r: bool,
) -> bool
    decreases a, 1int,
{
    match (a, b) {
        (PatternItem::Any, PatternItem::Any) => r,
        (PatternItem::Binding(x), PatternItem::Binding(y)) => r == (x@ == y@),
        (PatternItem::Value(x), PatternItem::Value(y)) => eq.ensures((&x, &y), r),
        (PatternItem::Vec(x), PatternItem::Vec(y)) => {
            proof {
                assert(decreases_to!(a => x));
                assert(decreases_to!(x => x@));
            }
            seqs_equal_answer(x@, y@, eq, r)
        },
        _ => !r,
    }
}

/// `r` is an answer that comparing two patterns for equality may give.
pub open spec fn seqs_equal_answer<V, E: Fn(&V, &V) -> bool>(
    s: Seq<PatternItem<V>>,
    t: Seq<PatternItem<V>>,
    eq: E,
    r: bool,
) -> bool
    decreases s, 0int,
{
    if s.len() != t.len() {
        !r
    } else if r {
        forall|i: int| 0 <= i < s.len() ==> items_equal_answer(#[trigger] s[i], t[i], eq, true)
    } else {
        exists|i: int| 0 <= i < s.len() && items_equal_answer(#[trigger] s[i], t[i], eq, false)
    }
}

/// Whether two pattern items are equal, values compared by `eq`.
pub(crate) fn items_equal<V, E: Fn(&V, &V) -> bool>(a: &PatternItem<V>, b: &PatternItem<V>, eq: &E) -> (r: bool)
    requires
        forall|x: &V, y: &V| #[trigger] eq.requires((x, y)),
    ensures
        items_equal_answer(*a, *b, *eq, r),
    decreases a,
{
    match (a, b) {
        (PatternItem::Any, PatternItem::Any) => true,
        (PatternItem::Binding(x), PatternItem::Binding(y)) => *x == *y,
        (PatternItem::Value(x), PatternItem::Value(y)) => eq(x, y),
        (PatternItem::Vec(x), PatternItem::Vec(y)) => {
            if x.len() != y.len() {
                return false;
            }
            let mut i: usize = 0;
            while i < x.len()
                invariant
                    i <= x.len(),
                    x@.len() == y@.len(),
                    *a == PatternItem::Vec(*x),
                    *b == PatternItem::Vec(*y),
                    forall|x: &V, y: &V| #[trigger] eq.requires((x, y)),
                    forall|j: int|
                        0 <= j < i ==> items_equal_answer(#[trigger] x@[j], y@[j], *eq, true),
                decreases x.len() - i,
            {
                proof {
                    assert(decreases_to!(*a => (*a)->Vec_0));
                    assert(decreases_to!(x => x[i as int]));
                }
                if !items_equal(&x[i], &y[i], eq) {
                    assert(items_equal_answer(x@[i as int], y@[i as int], *eq, false));
                    return false;
                }
                i = i + 1;
            }
            true
        },
        _ => false,
    }
}

/// `r` is an answer that comparing two variable patterns for equality may
/// give: the same entity, variable and assumption flag, and equal values.
pub open spec fn mk_vals_equal_answer<V, E: Fn(&V, &V) -> bool>(
    a: MkVal<V>,
    b: MkVal<V>,
    eq: E,
    r: bool,
) -> bool {
    let same = match (a.entity_id, b.entity_id) {
        (EntityPatternValue::Binding(x), EntityPatternValue::Binding(y)) => x@ == y@,
        (EntityPatternValue::EntityId(x), EntityPatternValue::EntityId(y)) => x@ == y@,
        _ => false,
    } && a.var_name@ == b.var_name@ && a.assumption == b.assumption;
    if r {
        same && items_equal_answer(a.value, b.value, eq, true)
    } else {
        !same || items_equal_answer(a.value, b.value, eq, false)
    }
}

/// Whether two variable patterns are equal, values compared by `eq`.
fn mk_vals_equal<V, E: Fn(&V, &V) -> bool>(a: &MkVal<V>, b: &MkVal<V>, eq: &E) -> (r: bool)
    requires
        forall|x: &V, y: &V| #[trigger] eq.requires((x, y)),
    ensures
        mk_vals_equal_answer(*a, *b, *eq, r),
{
    a.entity_id == b.entity_id && a.var_name == b.var_name && items_equal(&a.value, &b.value, eq)
        && a.assumption == b.assumption
}

/// Some fact of the goal has a pattern that `eq` may answer equal to `p`.
pub open spec fn has_equal_answer<V: Clone, E: Fn(&V, &V) -> bool>(
    p: MkVal<V>,
    goal: Seq<Fact<MkVal<V>>>,
    eq: E,
) -> bool {
    exists|j: int| 0 <= j < goal.len() && mk_vals_equal_answer(p, #[trigger] goal[j].pattern, eq, true)
}

/// Every fact of the goal has a pattern that `eq` may answer unequal to `p`.
pub open spec fn no_equal_answer<V: Clone, E: Fn(&V, &V) -> bool>(
    p: MkVal<V>,
    goal: Seq<Fact<MkVal<V>>>,
    eq: E,
) -> bool {
    forall|j: int| 0 <= j < goal.len() ==> mk_vals_equal_answer(p, #[trigger] goal[j].pattern, eq, false)
}

/// Whether some fact of the goal has a pattern equal to `p`.
fn has_equal_pattern<V: Clone, E: Fn(&V, &V) -> bool>(
    p: &MkVal<V>,
    goal: &Vec<Fact<MkVal<V>>>,
    eq: &E,
) -> (r: bool)
    requires
        forall|x: &V, y: &V| #[trigger] eq.requires((x, y)),
    ensures
        r ==> has_equal_answer(*p, goal@, *eq),
        !r ==> no_equal_answer(*p, goal@, *eq),
{
    let mut j: usize = 0;
    while j < goal.len()
        invariant
            j <= goal.len(),
            forall|x: &V, y: &V| #[trigger] eq.requires((x, y)),
            forall|l: int|
                0 <= l < j ==> mk_vals_equal_answer(*p, #[trigger] goal@[l].pattern, *eq, false),
        decreases goal.len() - j,
    {
        if mk_vals_equal(p, &goal[j].pattern, eq) {
            assert(mk_vals_equal_answer(*p, goal@[j as int].pattern, *eq, true));
            return true;
        }
        j = j + 1;
    }
    false
}

/// Goals are considered equal even if their timing is not the same: as
/// many facts, and for each fact of the first an equal pattern among the
/// second's.
pub fn are_goals_equal<V: Clone, E: Fn(&V, &V) -> bool>(
    goal1: &Vec<Fact<MkVal<V>>>,
    goal2: &Vec<Fact<MkVal<V>>>,
    eq: &E,
) -> (r: bool)
    requires
        forall|x: &V, y: &V| #[trigger] eq.requires((x, y)),
    ensures
        r ==> goal1@.len() == goal2@.len() && forall|i: int|
            0 <= i < goal1@.len() ==> has_equal_answer(#[trigger] goal1@[i].pattern, goal2@, *eq),
        !r ==> goal1@.len() != goal2@.len() || exists|i: int|
            0 <= i < goal1@.len() && no_equal_answer(#[trigger] goal1@[i].pattern, goal2@, *eq),
{
    if goal1.len() != goal2.len() {
        return false;
    }
    let mut i: usize = 0;
    while i < goal1.len()
        invariant
            i <= goal1.len(),
            goal1@.len() == goal2@.len(),
            forall|x: &V, y: &V| #[trigger] eq.requires((x, y)),
            forall|k: int| 0 <= k < i ==> has_equal_answer(#[trigger] goal1@[k].pattern, goal2@, *eq),
        decreases goal1.len() - i,
    {
        if !has_equal_pattern(&goal1[i].pattern, goal2, eq) {
            return false;
        }
        i = i + 1;
    }
    true
}

/// `m2` keeps every binding of `m`, with the same value.
pub open spec fn bindings_kept<V>(m: Map<Seq<char>, V>, m2: Map<Seq<char>, V>) -> bool {
    forall|k: Seq<char>| #[trigger] m.contains_key(k) ==> m2.contains_key(k) && m2[k] == m[k]
}

/// A successful match only adds bindings: each binding it started with is
/// kept with its value.
pub proof fn lemma_match_keeps_bindings<V, E: Fn(&V, &V) -> bool, A: Fn(&V) -> Option<Vec<V>>>(
    p: PatternItem<V>,
    v: V,
    m: Map<Seq<char>, V>,
    eq: E,
    as_vec: A,
)
    requires
        match_result(p, v, m, eq, as_vec) is Some,
    ensures
        bindings_kept(m, match_result(p, v, m, eq, as_vec)->Some_0),
    decreases p, 1int,
{
    match p {
        PatternItem::Vec(items) => {
            let vs = read_vec(as_vec, v)->Some_0;
            assert(decreases_to!(p => items));
            assert(decreases_to!(items => items@));
            lemma_seq_match_keeps_bindings(items@, vs, items@.len() as int, m, eq, as_vec);
        },
        _ => {},
    }
}

/// A successful match of values against a pattern only adds bindings.
pub proof fn lemma_seq_match_keeps_bindings<V, E: Fn(&V, &V) -> bool, A: Fn(&V) -> Option<Vec<V>>>(
    s: Seq<PatternItem<V>>,
    vs: Seq<V>,
    n: int,
    m: Map<Seq<char>, V>,
    eq: E,
    as_vec: A,
)
    requires
        seq_match_result(s, vs, n, m, eq, as_vec) is Some,
    ensures
        bindings_kept(m, seq_match_result(s, vs, n, m, eq, as_vec)->Some_0),
    decreases s, n,
{
    if !(n <= 0 || n > s.len() || n > vs.len()) {
        let m1 = seq_match_result(s, vs, n - 1, m, eq, as_vec)->Some_0;
        lemma_seq_match_keeps_bindings(s, vs, n - 1, m, eq, as_vec);
        lemma_match_keeps_bindings(s[n - 1], vs[n - 1], m1, eq, as_vec);
    }
}

} // verus!
