//! Patterns: sequences of items that are wildcards, bindings, values or
//! nested patterns. What a pattern binds, whether it holds a concrete value
//! and how it flattens depend only on its structure, so the items here are
//! generic over the type of their values.

use vstd::prelude::*;
use crate::str_map::StrMap;

verus! {

#[derive(Debug, PartialEq, Hash)]
pub enum PatternItem<V> {
    Any,
    Binding(String),
    Value(V),
    Vec(Vec<PatternItem<V>>),
}

/// The characters of each string.
pub open spec fn strings_view(s: Seq<String>) -> Seq<Seq<char>> {
    s.map_values(|x: String| x@)
}

/// The bindings of an item, in order, with repetitions.
pub open spec fn item_bindings<V>(p: PatternItem<V>) -> Seq<Seq<char>>
    decreases p,
{
    match p {
        PatternItem::Binding(b) => seq![b@],
        PatternItem::Vec(v) => {
            proof {
                assert(decreases_to!(v => v@));
            }
            pattern_bindings(v@)
        },
        _ => seq![],
    }
}

/// The bindings of a pattern, item after item.
pub open spec fn pattern_bindings<V>(s: Seq<PatternItem<V>>) -> Seq<Seq<char>>
    decreases s,
{
    if s.len() == 0 {
        seq![]
    } else {
        pattern_bindings(s.drop_last()) + item_bindings(s.last())
    }
}

/// The item holds no concrete value, only bindings and wildcards.
pub open spec fn item_fully_unbound<V>(p: PatternItem<V>) -> bool
    decreases p,
{
    match p {
        PatternItem::Value(_) => false,
        PatternItem::Vec(v) => {
            proof {
                assert(decreases_to!(v => v@));
            }
            pattern_fully_unbound(v@)
        },
        _ => true,
    }
}

/// No item of the pattern holds a concrete value.
pub open spec fn pattern_fully_unbound<V>(s: Seq<PatternItem<V>>) -> bool
    decreases s,
{
    s.len() == 0 || (pattern_fully_unbound(s.drop_last()) && item_fully_unbound(s.last()))
}

/// A pattern holds no concrete value exactly when none of its items does.
pub proof fn lemma_pattern_unbound_iff_items<V>(s: Seq<PatternItem<V>>)
    ensures
        pattern_fully_unbound(s) <==> forall|i: int| 0 <= i < s.len() ==> #[trigger] item_fully_unbound(s[i]),
    decreases s.len(),
{
    if s.len() > 0 {
        lemma_pattern_unbound_iff_items(s.drop_last());
        if pattern_fully_unbound(s) {
            assert forall|i: int| 0 <= i < s.len() implies #[trigger] item_fully_unbound(s[i]) by {
                if i < s.len() - 1 {
                    assert(s.drop_last()[i] == s[i]);
                }
            }
        } else if forall|i: int| 0 <= i < s.len() ==> #[trigger] item_fully_unbound(s[i]) {
            assert forall|i: int| 0 <= i < s.drop_last().len() implies #[trigger] item_fully_unbound(s.drop_last()[i]) by {
                assert(s.drop_last()[i] == s[i]);
            }
            assert(item_fully_unbound(s[s.len() - 1]));
        }
    }
}

/// An item holds no concrete value exactly when it is not a value and, if
/// it is a nested pattern, none of its items holds one: a binding or a
/// wildcard holds none, a value does, and a nested pattern of bindings
/// (or an empty one) holds none.
pub proof fn lemma_item_unbound_iff_no_value<V>(p: PatternItem<V>)
    ensures
        item_fully_unbound(p) <==> match p {
            PatternItem::Value(_) => false,
            PatternItem::Vec(v) => forall|i: int| 0 <= i < v@.len() ==> #[trigger] item_fully_unbound(v@[i]),
            _ => true,
        },
{
    if let PatternItem::Vec(v) = p {
        lemma_pattern_unbound_iff_items(v@);
    }
}

/// An item with its nested patterns spliced in place.
pub open spec fn flat_item<V>(p: PatternItem<V>) -> Seq<PatternItem<V>>
    decreases p,
{
    match p {
        PatternItem::Vec(v) => {
            proof {
                assert(decreases_to!(v => v@));
            }
            flat_pattern(v@)
        },
        _ => seq![p],
    }
}

/// A pattern with all nested patterns spliced in place.
pub open spec fn flat_pattern<V>(s: Seq<PatternItem<V>>) -> Seq<PatternItem<V>>
    decreases s,
{
    if s.len() == 0 {
        seq![]
    } else {
        flat_pattern(s.drop_last()) + flat_item(s.last())
    }
}

/// No item of the sequence is a value.
pub open spec fn no_value_in<V>(s: Seq<PatternItem<V>>) -> bool {
    forall|i: int| 0 <= i < s.len() ==> !(#[trigger] s[i] is Value)
}

/// An item holds no concrete value exactly when, with its nested patterns
/// spliced in place, no value is left among its items.
pub proof fn lemma_item_unbound_iff_flat_has_no_value<V>(p: PatternItem<V>)
    ensures
        item_fully_unbound(p) <==> no_value_in(flat_item(p)),
    decreases p,
{
    match p {
        PatternItem::Vec(v) => {
            assert(decreases_to!(p => v));
            assert(decreases_to!(v => v@));
            lemma_pattern_unbound_iff_flat_has_no_value(v@);
        },
        PatternItem::Value(x) => {
            assert(flat_item(p)[0] is Value);
        },
        _ => {},
    }
}

/// A pattern holds no concrete value exactly when, with its nested
/// patterns spliced in place, no value is left among its items.
pub proof fn lemma_pattern_unbound_iff_flat_has_no_value<V>(s: Seq<PatternItem<V>>)
    ensures
        pattern_fully_unbound(s) <==> no_value_in(flat_pattern(s)),
    decreases s,
{
    if s.len() > 0 {
        let a = flat_pattern(s.drop_last());
        let b = flat_item(s.last());
        lemma_pattern_unbound_iff_flat_has_no_value(s.drop_last());
        assert(decreases_to!(s => s[s.len() - 1]));
        lemma_item_unbound_iff_flat_has_no_value(s.last());
        assert(flat_pattern(s) == a + b);
        if no_value_in(a + b) {
            assert forall|i: int| 0 <= i < a.len() implies !(#[trigger] a[i] is Value) by {
                assert((a + b)[i] == a[i]);
            }
            assert forall|i: int| 0 <= i < b.len() implies !(#[trigger] b[i] is Value) by {
                assert((a + b)[a.len() + i] == b[i]);
            }
        }
        if no_value_in(a) && no_value_in(b) {
            assert forall|i: int| 0 <= i < (a + b).len() implies !(#[trigger] (a + b)[i] is Value) by {
                if i < a.len() {
                    assert((a + b)[i] == a[i]);
                } else {
                    assert((a + b)[i] == b[i - a.len()]);
                }
            }
        }
    }
}

/// The bindings of a pattern read one item longer.
proof fn lemma_pattern_bindings_push<V>(s: Seq<PatternItem<V>>, i: int)
    requires
        0 <= i < s.len(),
    ensures
        pattern_bindings(s.subrange(0, i + 1)) == pattern_bindings(s.subrange(0, i))
            + item_bindings(s[i]),
{
    assert(s.subrange(0, i + 1).drop_last() =~= s.subrange(0, i));
}

/// A binding occurs in a pattern exactly when it occurs in one of its items.
pub proof fn lemma_pattern_bindings_contains<V>(s: Seq<PatternItem<V>>, b: Seq<char>)
    ensures
        pattern_bindings(s).contains(b) <==> exists|i: int|
            0 <= i < s.len() && #[trigger] item_bindings(s[i]).contains(b),
    decreases s.len(),
{
    if s.len() > 0 {
        let init = s.drop_last();
        lemma_pattern_bindings_contains(init, b);
        let a = pattern_bindings(init);
        let c = item_bindings(s.last());
        if (a + c).contains(b) {
            let k = choose|k: int| 0 <= k < (a + c).len() && (a + c)[k] == b;
            if k < a.len() {
                assert(a[k] == b);
                let i = choose|i: int| 0 <= i < init.len() && #[trigger] item_bindings(init[i]).contains(b);
                assert(s[i] == init[i]);
            } else {
                assert(c[k - a.len()] == b);
                assert(item_bindings(s[s.len() - 1]).contains(b));
            }
        }
        if exists|i: int| 0 <= i < s.len() && #[trigger] item_bindings(s[i]).contains(b) {
            let i = choose|i: int| 0 <= i < s.len() && #[trigger] item_bindings(s[i]).contains(b);
            let k = choose|k: int| 0 <= k < item_bindings(s[i]).len() && item_bindings(s[i])[k] == b;
            if i < s.len() - 1 {
                assert(init[i] == s[i]);
                assert(a.contains(b));
                let j = choose|j: int| 0 <= j < a.len() && a[j] == b;
                assert((a + c)[j] == b);
            } else {
                assert((a + c)[a.len() + k] == b);
            }
        }
    }
}

/// `b` is a copy of `a`: the same structure and bindings, each value a
/// clone of the value in the same place.
pub open spec fn item_cloned<V: Clone>(a: PatternItem<V>, b: PatternItem<V>) -> bool
    decreases a,
{
    match a {
        PatternItem::Any => b is Any,
        PatternItem::Binding(x) => b is Binding && b->Binding_0@ == x@,
        PatternItem::Value(x) => b is Value && cloned(x, b->Value_0),
        PatternItem::Vec(v) => {
            &&& b is Vec
            &&& b->Vec_0@.len() == v@.len()
            &&& forall|i: int|
                0 <= i < v@.len() ==> {
                    proof {
                        assert(decreases_to!(v => v@[i]));
                    }
                    item_cloned(#[trigger] v@[i], b->Vec_0@[i])
                }
        },
    }
}

/// `t` copies `s` item by item.
pub open spec fn items_cloned<V: Clone>(s: Seq<PatternItem<V>>, t: Seq<PatternItem<V>>) -> bool {
    &&& t.len() == s.len()
    &&& forall|i: int| 0 <= i < s.len() ==> item_cloned(#[trigger] s[i], t[i])
}

/// A copy of the pattern, item by item.
pub fn clone_items<V: Clone>(pattern: &Vec<PatternItem<V>>) -> (r: Vec<PatternItem<V>>)
    ensures
        items_cloned(pattern@, r@),
{
    let mut out: Vec<PatternItem<V>> = Vec::new();
    let mut i: usize = 0;
    while i < pattern.len()
        invariant
            i <= pattern.len(),
            out@.len() == i,
            forall|j: int| 0 <= j < i ==> item_cloned(#[trigger] pattern@[j], out@[j]),
        decreases pattern.len() - i,
    {
        out.push(pattern[i].clone());
        i = i + 1;
    }
    out
}

impl<V: Clone> Clone for PatternItem<V> {
    fn clone(&self) -> (r: Self)
        ensures
            item_cloned(*self, r),
        decreases self,
    {
        match self {
            PatternItem::Any => PatternItem::Any,
            PatternItem::Binding(b) => PatternItem::Binding(b.clone()),
            PatternItem::Value(v) => PatternItem::Value(v.clone()),
            PatternItem::Vec(items) => {
                let mut out: Vec<PatternItem<V>> = Vec::new();
                let mut i: usize = 0;
                while i < items.len()
                    invariant
                        i <= items.len(),
                        *self == PatternItem::Vec(*items),
                        out@.len() == i,
                        forall|j: int| 0 <= j < i ==> item_cloned(#[trigger] items@[j], out@[j]),
                    decreases items.len() - i,
                {
                    proof {
                        assert(decreases_to!(*self => (*self)->Vec_0));
                        assert(decreases_to!(items => items[i as int]));
                    }
                    out.push(items[i].clone());
                    i = i + 1;
                }
                PatternItem::Vec(out)
            },
        }
    }
}

impl<V> PatternItem<V> {
    /// The value of a value item.
    pub fn as_value(&self) -> (v: &V)
        requires
            self is Value,
        ensures
            *v == self->Value_0,
    {
        match self {
            PatternItem::Value(v) => v,
            _ => vstd::pervasive::unreached(),
        }
    }

    /// Whether the binding occurs anywhere in the item.
    pub fn contains_binding(&self, binding: &str) -> (r: bool)
        ensures
            r == item_bindings(*self).contains(binding@),
        decreases self,
    {
        match self {
            PatternItem::Binding(b) => {
                let r = *b == binding.to_owned();
                assert(r ==> seq![b@][0] == binding@);
                r
            },
            PatternItem::Vec(p) => {
                proof {
                    lemma_pattern_bindings_contains(p@, binding@);
                }
                let mut i: usize = 0;
                while i < p.len()
                    invariant
                        i <= p.len(),
                        *self == PatternItem::Vec(*p),
                        forall|j: int| 0 <= j < i ==> !(#[trigger] item_bindings(p@[j])).contains(binding@),
                    decreases p.len() - i,
                {
                    proof {
                        assert(decreases_to!(*self => (*self)->Vec_0));
                        assert(decreases_to!(p => p[i as int]));
                    }
                    if p[i].contains_binding(binding) {
                        proof {
                            lemma_pattern_bindings_contains(p@, binding@);
                        }
                        return true;
                    }
                    i = i + 1;
                }
                proof {
                    lemma_pattern_bindings_contains(p@, binding@);
                }
                false
            },
            PatternItem::Value(_) | PatternItem::Any => false,
        }
    }

    /// The bindings of the item, in order, with repetitions.
    pub fn get_bindings(&self) -> (r: Vec<String>)
        ensures
            strings_view(r@) == item_bindings(*self),
        decreases self,
    {
        match self {
            PatternItem::Binding(b) => {
                let r = vec![b.clone()];
                assert(strings_view(r@) =~= seq![b@]);
                r
            },
            PatternItem::Vec(v) => {
                proof {
                    assert(decreases_to!(*self => (*self)->Vec_0));
                }
                bindings_in_pattern(v)
            },
            PatternItem::Any | PatternItem::Value(_) => {
                let r: Vec<String> = Vec::new();
                assert(strings_view(r@) =~= seq![]);
                r
            },
        }
    }

    /// Whether the item holds no concrete value.
    pub fn is_fully_unbound(&self) -> (r: bool)
        ensures
            r == item_fully_unbound(*self),
        decreases self,
    {
        match self {
            PatternItem::Binding(_) | PatternItem::Any => true,
            PatternItem::Vec(v) => {
                let mut i: usize = 0;
                while i < v.len()
                    invariant
                        i <= v.len(),
                        *self == PatternItem::Vec(*v),
                        pattern_fully_unbound(v@.subrange(0, i as int)),
                    decreases v.len() - i,
                {
                    proof {
                        assert(decreases_to!(*self => (*self)->Vec_0));
                        assert(decreases_to!(v => v[i as int]));
                        assert(v@.subrange(0, i + 1).drop_last() =~= v@.subrange(0, i as int));
                    }
                    if !v[i].is_fully_unbound() {
                        proof {
                            lemma_fully_unbound_items(v@, i as int);
                        }
                        return false;
                    }
                    i = i + 1;
                }
                assert(v@.subrange(0, i as int) =~= v@);
                true
            },
            PatternItem::Value(_) => false,
        }
    }
}

/// `q` is `p` with every binding that `m` holds replaced by a clone of the
/// value it is bound to; everything else stays as it was.
pub open spec fn item_filled<V: Clone>(
    p: PatternItem<V>,
    q: PatternItem<V>,
    m: Map<Seq<char>, V>,
) -> bool
    decreases p,
{
    match p {
        PatternItem::Binding(b) => if m.contains_key(b@) {
            q is Value && cloned(m[b@], q->Value_0)
        } else {
            q == p
        },
        PatternItem::Vec(v) => {
            &&& q is Vec
            &&& q->Vec_0@.len() == v@.len()
            &&& forall|i: int|
                0 <= i < v@.len() ==> {
                    proof {
                        assert(decreases_to!(v => v@[i]));
                    }
                    item_filled(#[trigger] v@[i], q->Vec_0@[i], m)
                }
        },
        _ => q == p,
    }
}

/// `q` is `p` with every binding that `m` holds replaced by a copy of the
/// pattern item it is bound to; everything else stays as it was.
pub open spec fn item_substituted<V: Clone>(
    p: PatternItem<V>,
    q: PatternItem<V>,
    m: Map<Seq<char>, PatternItem<V>>,
) -> bool
    decreases p,
{
    match p {
        PatternItem::Binding(b) => if m.contains_key(b@) {
            item_cloned(m[b@], q)
        } else {
            q == p
        },
        PatternItem::Vec(v) => {
            &&& q is Vec
            &&& q->Vec_0@.len() == v@.len()
            &&& forall|i: int|
                0 <= i < v@.len() ==> {
                    proof {
                        assert(decreases_to!(v => v@[i]));
                    }
                    item_substituted(#[trigger] v@[i], q->Vec_0@[i], m)
                }
        },
        _ => q == p,
    }
}

/// Two items the same up to how their binding names are held: bindings of
/// the same name, nested patterns the same item by item, anything else
/// equal.
pub open spec fn item_same_names<V>(p: PatternItem<V>, q: PatternItem<V>) -> bool
    decreases p,
{
    match p {
        PatternItem::Binding(b) => q is Binding && q->Binding_0@ == b@,
        PatternItem::Vec(v) => {
            &&& q is Vec
            &&& q->Vec_0@.len() == v@.len()
            &&& forall|i: int|
                0 <= i < v@.len() ==> {
                    proof {
                        assert(decreases_to!(v => v@[i]));
                    }
                    item_same_names(#[trigger] v@[i], q->Vec_0@[i])
                }
        },
        _ => q == p,
    }
}

/// Substituting each binding by a binding of its own name leaves an item
/// the same.
pub proof fn lemma_substituted_own_names<V: Clone>(
    p: PatternItem<V>,
    q: PatternItem<V>,
    m: Map<Seq<char>, PatternItem<V>>,
)
    requires
        item_substituted(p, q, m),
        forall|k: Seq<char>| #[trigger] m.contains_key(k) ==> m[k] is Binding && m[k]->Binding_0@ == k,
    ensures
        item_same_names(p, q),
    decreases p,
{
    match p {
        PatternItem::Vec(v) => {
            let w = q->Vec_0;
            assert forall|i: int| 0 <= i < v@.len() implies item_same_names(#[trigger] v@[i], w@[i]) by {
                assert(decreases_to!(p => v));
                assert(decreases_to!(v => v@[i]));
                assert(item_substituted(v@[i], w@[i], m));
                lemma_substituted_own_names(v@[i], w@[i], m);
            }
        },
        PatternItem::Binding(b) => {
            if m.contains_key(b@) {
                assert(item_cloned(m[b@], q));
            }
        },
        _ => {},
    }
}

/// The names that `m` does not bind.
pub open spec fn unbound_in<V>(m: Map<Seq<char>, V>) -> spec_fn(Seq<char>) -> bool {
    |b: Seq<char>| !m.contains_key(b)
}

/// Filling in bindings leaves, in order, exactly the bindings that the map
/// does not hold.
pub proof fn lemma_filled_bindings<V: Clone>(
    p: PatternItem<V>,
    q: PatternItem<V>,
    m: Map<Seq<char>, V>,
)
    requires
        item_filled(p, q, m),
    ensures
        item_bindings(q) == item_bindings(p).filter(unbound_in(m)),
    decreases p,
{
    reveal(Seq::filter);
    match p {
        PatternItem::Binding(b) => {
            assert(seq![b@].drop_last() =~= Seq::<Seq<char>>::empty());
            assert(seq![b@].drop_last().filter(unbound_in(m)) =~= Seq::<Seq<char>>::empty());
            assert(seq![b@].last() == b@);
            if m.contains_key(b@) {
                assert(seq![b@].filter(unbound_in(m)) =~= Seq::<Seq<char>>::empty());
            } else {
                assert(seq![b@].filter(unbound_in(m)) =~= seq![b@]);
            }
        },
        PatternItem::Vec(v) => {
            assert(decreases_to!(p => p->Vec_0));
            assert(decreases_to!(v => v@));
            lemma_filled_pattern_bindings(v@, q->Vec_0@, m);
        },
        _ => {
            assert(Seq::<Seq<char>>::empty().filter(unbound_in(m)) =~= Seq::<Seq<char>>::empty());
        },
    }
}

/// Filling in bindings item by item leaves, in order, exactly the bindings
/// that the map does not hold.
pub proof fn lemma_filled_pattern_bindings<V: Clone>(
    s: Seq<PatternItem<V>>,
    t: Seq<PatternItem<V>>,
    m: Map<Seq<char>, V>,
)
    requires
        t.len() == s.len(),
        forall|i: int| 0 <= i < s.len() ==> item_filled(#[trigger] s[i], t[i], m),
    ensures
        pattern_bindings(t) == pattern_bindings(s).filter(unbound_in(m)),
    decreases s,
{
    reveal(Seq::filter);
    if s.len() > 0 {
        let n = s.len() - 1;
        assert(item_filled(s[n], t[n], m));
        lemma_filled_pattern_bindings(s.drop_last(), t.drop_last(), m);
        lemma_filled_bindings(s.last(), t.last(), m);
        Seq::<Seq<char>>::filter_distributes_over_add(
            pattern_bindings(s.drop_last()),
            item_bindings(s.last()),
            unbound_in(m),
        );
    }
}

/// `q` is a copy of `p` with every binding that `m` holds replaced by a
/// clone of the value it is bound to.
pub open spec fn item_filled_copy<V: Clone>(
    p: PatternItem<V>,
    q: PatternItem<V>,
    m: Map<Seq<char>, V>,
) -> bool
    decreases p,
{
    match p {
        PatternItem::Binding(b) => if m.contains_key(b@) {
            q is Value && cloned(m[b@], q->Value_0)
        } else {
            q is Binding && q->Binding_0@ == b@
        },
        PatternItem::Vec(v) => {
            &&& q is Vec
            &&& q->Vec_0@.len() == v@.len()
            &&& forall|i: int|
                0 <= i < v@.len() ==> {
                    proof {
                        assert(decreases_to!(v => v@[i]));
                    }
                    item_filled_copy(#[trigger] v@[i], q->Vec_0@[i], m)
                }
        },
        _ => item_cloned(p, q),
    }
}

/// A copy of an item has the same bindings.
pub proof fn lemma_cloned_item_bindings<V: Clone>(a: PatternItem<V>, b: PatternItem<V>)
    requires
        item_cloned(a, b),
    ensures
        item_bindings(a) == item_bindings(b),
    decreases a,
{
    if let PatternItem::Vec(v) = a {
        let w = b->Vec_0;
        assert forall|i: int| 0 <= i < v@.len() implies item_bindings(#[trigger] v@[i])
            == item_bindings(w@[i]) by {
            assert(decreases_to!(a => v));
            assert(decreases_to!(v => v@[i]));
            assert(item_cloned(v@[i], w@[i]));
            lemma_cloned_item_bindings(v@[i], w@[i]);
        }
        lemma_cloned_pattern_bindings(v@, w@);
    }
}

/// Patterns whose items have the same bindings, place by place, have the
/// same bindings.
proof fn lemma_cloned_pattern_bindings<V>(s: Seq<PatternItem<V>>, t: Seq<PatternItem<V>>)
    requires
        s.len() == t.len(),
        forall|i: int| 0 <= i < s.len() ==> item_bindings(#[trigger] s[i]) == item_bindings(t[i]),
    ensures
        pattern_bindings(s) == pattern_bindings(t),
    decreases s.len(),
{
    if s.len() > 0 {
        lemma_cloned_pattern_bindings(s.drop_last(), t.drop_last());
        assert(item_bindings(s[s.len() - 1]) == item_bindings(t[t.len() - 1]));
    }
}

/// A filled-in copy of an item is a wildcard just where the item is.
pub proof fn lemma_filled_copy_any<V: Clone>(p: PatternItem<V>, q: PatternItem<V>, m: Map<Seq<char>, V>)
    requires
        item_filled_copy(p, q, m),
    ensures
        q is Any <==> p is Any,
{
}

/// A copy of the item with the bindings that `bindings` holds filled in.
pub fn filled_copy<V: Clone>(item: &PatternItem<V>, bindings: &StrMap<V>) -> (r: PatternItem<V>)
    ensures
        item_filled_copy(*item, r, bindings@),
    decreases item,
{
    match item {
        PatternItem::Binding(b) => match bindings.get(b) {
            Some(v) => PatternItem::Value(v.clone()),
            None => PatternItem::Binding(b.clone()),
        },
        PatternItem::Vec(items) => {
            let mut out: Vec<PatternItem<V>> = Vec::new();
            let mut i: usize = 0;
            while i < items.len()
                invariant
                    i <= items.len(),
                    *item == PatternItem::Vec(*items),
                    out@.len() == i,
                    forall|j: int|
                        0 <= j < i ==> item_filled_copy(#[trigger] items@[j], out@[j], bindings@),
                decreases items.len() - i,
            {
                proof {
                    assert(decreases_to!(*item => (*item)->Vec_0));
                    assert(decreases_to!(items => items[i as int]));
                }
                out.push(filled_copy(&items[i], bindings));
                i = i + 1;
            }
            PatternItem::Vec(out)
        },
        _ => item.clone(),
    }
}

/// `t` is a copy of `s`, item by item, with the bindings that `m` holds
/// filled in.
pub open spec fn items_filled_copy<V: Clone>(
    s: Seq<PatternItem<V>>,
    t: Seq<PatternItem<V>>,
    m: Map<Seq<char>, V>,
) -> bool {
    &&& t.len() == s.len()
    &&& forall|i: int| 0 <= i < s.len() ==> item_filled_copy(#[trigger] s[i], t[i], m)
}

/// A copy of the pattern with the bindings that `bindings` holds filled in.
pub fn filled_copy_items<V: Clone>(pattern: &Vec<PatternItem<V>>, bindings: &StrMap<V>) -> (r: Vec<
    PatternItem<V>,
>)
    ensures
        items_filled_copy(pattern@, r@, bindings@),
{
    let mut out: Vec<PatternItem<V>> = Vec::new();
    let mut i: usize = 0;
    while i < pattern.len()
        invariant
            i <= pattern.len(),
            out@.len() == i,
            forall|j: int| 0 <= j < i ==> item_filled_copy(#[trigger] pattern@[j], out@[j], bindings@),
        decreases pattern.len() - i,
    {
        out.push(filled_copy(&pattern[i], bindings));
        i = i + 1;
    }
    out
}

/// The item with the bindings that `bindings` holds filled in.
fn filled_item<V: Clone>(item: PatternItem<V>, bindings: &StrMap<V>) -> (r: PatternItem<V>)
    ensures
        item_filled(item, r, bindings@),
    decreases item,
{
    match item {
        PatternItem::Binding(b) => match bindings.get(&b) {
            Some(v) => PatternItem::Value(v.clone()),
            None => PatternItem::Binding(b),
        },
        PatternItem::Vec(items) => {
            let ghost orig = items;
            let mut rest = items;
            let mut out: Vec<PatternItem<V>> = Vec::new();
            while rest.len() > 0
                invariant
                    item == PatternItem::Vec(orig),
                    out@.len() + rest@.len() == orig@.len(),
                    rest@ == orig@.subrange(out@.len() as int, orig@.len() as int),
                    forall|j: int|
                        0 <= j < out@.len() ==> item_filled(#[trigger] orig@[j], out@[j], bindings@),
                decreases rest.len(),
            {
                let ghost k = out@.len() as int;
                proof {
                    assert(rest@[0] == orig@[k]);
                    assert(decreases_to!(item => item->Vec_0));
                    assert(decreases_to!(orig => orig[k]));
                }
                let next = rest.remove(0);
                out.push(filled_item(next, bindings));
                assert(rest@ =~= orig@.subrange(out@.len() as int, orig@.len() as int));
            }
            PatternItem::Vec(out)
        },
        other => other,
    }
}

/// The item with the bindings that `bindings` holds replaced by copies of
/// the items they are bound to.
fn substituted_item<V: Clone>(item: PatternItem<V>, bindings: &StrMap<PatternItem<V>>) -> (r:
    PatternItem<V>)
    ensures
        item_substituted(item, r, bindings@),
    decreases item,
{
    match item {
        PatternItem::Binding(b) => match bindings.get(&b) {
            Some(p) => p.clone(),
            None => PatternItem::Binding(b),
        },
        PatternItem::Vec(items) => {
            let ghost orig = items;
            let mut rest = items;
            let mut out: Vec<PatternItem<V>> = Vec::new();
            while rest.len() > 0
                invariant
                    item == PatternItem::Vec(orig),
                    out@.len() + rest@.len() == orig@.len(),
                    rest@ == orig@.subrange(out@.len() as int, orig@.len() as int),
                    forall|j: int|
                        0 <= j < out@.len() ==> item_substituted(
                            #[trigger] orig@[j],
                            out@[j],
                            bindings@,
                        ),
                decreases rest.len(),
            {
                let ghost k = out@.len() as int;
                proof {
                    assert(rest@[0] == orig@[k]);
                    assert(decreases_to!(item => item->Vec_0));
                    assert(decreases_to!(orig => orig[k]));
                }
                let next = rest.remove(0);
                out.push(substituted_item(next, bindings));
                assert(rest@ =~= orig@.subrange(out@.len() as int, orig@.len() as int));
            }
            PatternItem::Vec(out)
        },
        other => other,
    }
}

impl<V: Clone> PatternItem<V> {
    /// Replaces each binding that `bindings` holds, at any depth, by a value
    /// item with a clone of its value.
    pub fn insert_binding_values(&mut self, bindings: &StrMap<V>)
        ensures
            item_filled(*old(self), *final(self), bindings@),
    {
        let mut item = PatternItem::Any;
        std::mem::swap(&mut item, self);
        *self = filled_item(item, bindings);
    }

    /// Replaces each binding that `bindings` holds, at any depth, by a copy
    /// of the pattern item it is bound to.
    pub fn insert_pattern_binding_values(&mut self, bindings: &StrMap<PatternItem<V>>)
        ensures
            item_substituted(*old(self), *final(self), bindings@),
    {
        let mut item = PatternItem::Any;
        std::mem::swap(&mut item, self);
        *self = substituted_item(item, bindings);
    }

    /// A pattern of this item alone.
    pub fn pattern(&self) -> (r: Vec<PatternItem<V>>)
        ensures
            r@.len() == 1,
            item_cloned(*self, r@[0]),
    {
        vec![self.clone()]
    }
}

/// A pattern is unbound only if each of its items is.
proof fn lemma_fully_unbound_items<V>(s: Seq<PatternItem<V>>, i: int)
    requires
        0 <= i < s.len(),
        !item_fully_unbound(s[i]),
    ensures
        !pattern_fully_unbound(s),
    decreases s.len(),
{
    if i < s.len() - 1 {
        assert(s.drop_last()[i] == s[i]);
        lemma_fully_unbound_items(s.drop_last(), i);
    }
}

/// The bindings of a pattern, item after item.
pub fn bindings_in_pattern<V>(pattern: &Vec<PatternItem<V>>) -> (r: Vec<String>)
    ensures
        strings_view(r@) == pattern_bindings(pattern@),
    decreases pattern,
{
    let mut r: Vec<String> = Vec::new();
    let mut i: usize = 0;
    assert(pattern@.subrange(0, 0) =~= Seq::<PatternItem<V>>::empty());
    assert(strings_view(r@) =~= seq![]);
    while i < pattern.len()
        invariant
            i <= pattern.len(),
            strings_view(r@) == pattern_bindings(pattern@.subrange(0, i as int)),
        decreases pattern.len() - i,
    {
        proof {
            assert(decreases_to!(pattern => pattern[i as int]));
            lemma_pattern_bindings_push(pattern@, i as int);
        }
        let mut b = pattern[i].get_bindings();
        let ghost before = r@;
        r.append(&mut b);
        assert(strings_view(r@) =~= strings_view(before) + item_bindings(pattern@[i as int]));
        i = i + 1;
    }
    assert(pattern@.subrange(0, i as int) =~= pattern@);
    r
}

/// Flattening distributes over concatenation.
pub proof fn lemma_flat_pattern_concat<V>(a: Seq<PatternItem<V>>, b: Seq<PatternItem<V>>)
    ensures
        flat_pattern(a + b) == flat_pattern(a) + flat_pattern(b),
    decreases b.len(),
{
    if b.len() == 0 {
        assert(a + b =~= a);
        assert(flat_pattern(a) + flat_pattern(b) =~= flat_pattern(a));
    } else {
        lemma_flat_pattern_concat(a, b.drop_last());
        assert((a + b).drop_last() =~= a + b.drop_last());
        assert((a + b).last() == b.last());
        assert(flat_pattern(a + b) =~= flat_pattern(a) + flat_pattern(b));
    }
}

/// Bindings distribute over concatenation.
pub proof fn lemma_pattern_bindings_concat<V>(a: Seq<PatternItem<V>>, b: Seq<PatternItem<V>>)
    ensures
        pattern_bindings(a + b) == pattern_bindings(a) + pattern_bindings(b),
    decreases b.len(),
{
    if b.len() == 0 {
        assert(a + b =~= a);
        assert(pattern_bindings(a) + pattern_bindings(b) =~= pattern_bindings(a));
    } else {
        lemma_pattern_bindings_concat(a, b.drop_last());
        assert((a + b).drop_last() =~= a + b.drop_last());
        assert((a + b).last() == b.last());
        assert(pattern_bindings(a + b) =~= pattern_bindings(a) + pattern_bindings(b));
    }
}

/// The flattening of a pattern starts with the flattening of its first item.
pub proof fn lemma_flat_pattern_first<V>(s: Seq<PatternItem<V>>)
    requires
        s.len() > 0,
    ensures
        flat_pattern(s) == flat_item(s[0]) + flat_pattern(s.drop_first()),
{
    let head = seq![s[0]];
    assert(s =~= head + s.drop_first());
    lemma_flat_pattern_concat(head, s.drop_first());
    assert(head.drop_last() =~= Seq::<PatternItem<V>>::empty());
    assert(flat_pattern(head.drop_last()) =~= Seq::<PatternItem<V>>::empty());
    assert(flat_pattern(head) =~= flat_item(s[0]));
}

/// Flattening keeps the bindings and their order.
pub proof fn lemma_flat_item_bindings<V>(p: PatternItem<V>)
    ensures
        pattern_bindings(flat_item(p)) == item_bindings(p),
    decreases p,
{
    match p {
        PatternItem::Vec(v) => {
            assert(decreases_to!(p => p->Vec_0));
            assert(decreases_to!(v => v@));
            lemma_flat_pattern_bindings(v@);
        },
        _ => {
            assert(seq![p].drop_last() =~= Seq::<PatternItem<V>>::empty());
            assert(pattern_bindings(seq![p].drop_last()) =~= Seq::<Seq<char>>::empty());
            assert(pattern_bindings(seq![p]) =~= item_bindings(p));
        },
    }
}

/// Flattening keeps the bindings and their order.
pub proof fn lemma_flat_pattern_bindings<V>(s: Seq<PatternItem<V>>)
    ensures
        pattern_bindings(flat_pattern(s)) == pattern_bindings(s),
    decreases s,
{
    if s.len() > 0 {
        lemma_flat_pattern_bindings(s.drop_last());
        lemma_flat_item_bindings(s.last());
        lemma_pattern_bindings_concat(flat_pattern(s.drop_last()), flat_item(s.last()));
    }
}

/// A flattened item holds no nested pattern.
pub proof fn lemma_flat_item_no_vecs<V>(p: PatternItem<V>)
    ensures
        forall|i: int| 0 <= i < flat_item(p).len() ==> !(#[trigger] flat_item(p)[i] is Vec),
    decreases p,
{
    match p {
        PatternItem::Vec(v) => {
            assert(decreases_to!(p => p->Vec_0));
            assert(decreases_to!(v => v@));
            lemma_flat_pattern_no_vecs(v@);
        },
        _ => {},
    }
}

/// A flattened pattern holds no nested pattern.
pub proof fn lemma_flat_pattern_no_vecs<V>(s: Seq<PatternItem<V>>)
    ensures
        forall|i: int| 0 <= i < flat_pattern(s).len() ==> !(#[trigger] flat_pattern(s)[i] is Vec),
    decreases s,
{
    if s.len() > 0 {
        lemma_flat_pattern_no_vecs(s.drop_last());
        lemma_flat_item_no_vecs(s.last());
        let a = flat_pattern(s.drop_last());
        let b = flat_item(s.last());
        assert forall|i: int| 0 <= i < (a + b).len() implies !((a + b)[i] is Vec) by {
            if i < a.len() {
                assert((a + b)[i] == a[i]);
            } else {
                assert((a + b)[i] == b[i - a.len()]);
            }
        }
    }
}

/// A pattern without nested patterns is its own flattening.
pub proof fn lemma_flat_pattern_of_flat<V>(s: Seq<PatternItem<V>>)
    requires
        forall|i: int| 0 <= i < s.len() ==> !(#[trigger] s[i] is Vec),
    ensures
        flat_pattern(s) == s,
    decreases s.len(),
{
    if s.len() > 0 {
        lemma_flat_pattern_of_flat(s.drop_last());
        assert(!(s[s.len() - 1] is Vec));
        assert(flat_item(s.last()) == seq![s.last()]);
        assert(flat_pattern(s) =~= s);
    }
}

/// Flattening a pattern twice is flattening it once.
pub proof fn lemma_flat_pattern_idempotent<V>(s: Seq<PatternItem<V>>)
    ensures
        flat_pattern(flat_pattern(s)) == flat_pattern(s),
{
    lemma_flat_pattern_no_vecs(s);
    lemma_flat_pattern_of_flat(flat_pattern(s));
}

/// The pattern with every nested pattern spliced in place.
pub fn flatten_pattern_vecs<V>(pattern: Vec<PatternItem<V>>) -> (r: Vec<PatternItem<V>>)
    ensures
        r@ == flat_pattern(pattern@),
    decreases pattern,
{
    let ghost orig = pattern;
    let mut rest = pattern;
    let mut result: Vec<PatternItem<V>> = Vec::new();
    let ghost mut k: int = 0;
    assert(flat_pattern(orig@) == result@ + flat_pattern(rest@)) by {
        assert(result@ + flat_pattern(rest@) =~= flat_pattern(rest@));
    }
    while rest.len() > 0
        invariant
            orig == pattern,
            0 <= k <= orig@.len(),
            rest@ == orig@.subrange(k, orig@.len() as int),
            flat_pattern(orig@) == result@ + flat_pattern(rest@),
        decreases rest.len(),
    {
        proof {
            lemma_flat_pattern_first(rest@);
            assert(rest@[0] == orig@[k]);
            assert(decreases_to!(orig => orig[k]));
        }
        let ghost rest_before = rest@;
        let item = rest.remove(0);
        let mut flat = flatten_pattern_item_vecs(item);
        let ghost result_before = result@;
        result.append(&mut flat);
        proof {
            assert(rest@ =~= rest_before.drop_first());
            assert(rest@ =~= orig@.subrange(k + 1, orig@.len() as int));
            assert(result@ + flat_pattern(rest@) =~= result_before + (flat_item(rest_before[0])
                + flat_pattern(rest_before.drop_first())));
            k = k + 1;
        }
    }
    assert(result@ + flat_pattern(rest@) =~= result@);
    result
}

/// The item, or the flattening of its nested pattern.
pub fn flatten_pattern_item_vecs<V>(pattern_item: PatternItem<V>) -> (r: Vec<PatternItem<V>>)
    ensures
        r@ == flat_item(pattern_item),
    decreases pattern_item,
{
    match pattern_item {
        PatternItem::Vec(p) => {
            proof {
                assert(decreases_to!(pattern_item => pattern_item->Vec_0));
            }
            flatten_pattern_vecs(p)
        },
        i => {
            let r = vec![i];
            assert(r@ =~= seq![pattern_item]);
            r
        },
    }
}

} // verus!
