//! Functions that compute a value from the bindings of a model: the
//! bindings they read and how they are evaluated.

use vstd::prelude::*;
use crate::runtime::pattern_matching::{
    clones_equal, lemma_made_vec, made_vec, make_vec_decides, value_with_bindings,
};
use crate::str_map::StrMap;
use crate::strings::{unique_seq, unique_strings};
use crate::types::pattern::{item_bindings, item_cloned, strings_view, PatternItem};

verus! {

/// A function of bound values: a pattern, an arithmetic operation on two
/// functions, a list of functions, or a conversion of a function's value.
#[derive(Debug, PartialEq)]
pub enum Function<V> {
    Value(PatternItem<V>),
    Add(Box<Function<V>>, Box<Function<V>>),
    Sub(Box<Function<V>>, Box<Function<V>>),
    Mul(Box<Function<V>>, Box<Function<V>>),
    Div(Box<Function<V>>, Box<Function<V>>),
    List(Vec<Function<V>>),
    ConvertToEntityId(Box<Function<V>>),
    ConvertToNumber(Box<Function<V>>),
}

/// The bindings a function reads: those of an operation's two operands
/// each once, where they first occur; those of a list's items one after
/// another, repetitions kept.
pub open spec fn function_bindings<V>(f: Function<V>) -> Seq<Seq<char>>
    decreases f,
{
    match f {
        Function::Value(p) => item_bindings(p),
        Function::Add(a, b) => unique_seq(function_bindings(*a) + function_bindings(*b)),
        Function::Sub(a, b) => unique_seq(function_bindings(*a) + function_bindings(*b)),
        Function::Mul(a, b) => unique_seq(function_bindings(*a) + function_bindings(*b)),
        Function::Div(a, b) => unique_seq(function_bindings(*a) + function_bindings(*b)),
        Function::List(l) => {
            proof {
                assert(decreases_to!(l => l@));
            }
            list_bindings(l@)
        },
        Function::ConvertToEntityId(g) => function_bindings(*g),
        Function::ConvertToNumber(g) => function_bindings(*g),
    }
}

/// The bindings of each function of the list, one after another.
pub open spec fn list_bindings<V>(s: Seq<Function<V>>) -> Seq<Seq<char>>
    decreases s,
{
    if s.len() == 0 {
        seq![]
    } else {
        list_bindings(s.drop_last()) + function_bindings(s.last())
    }
}

/// The bindings of both operands, each once, where it first occurs.
fn operand_bindings(mut left: Vec<String>, mut right: Vec<String>) -> (r: Vec<String>)
    ensures
        strings_view(r@) == unique_seq(strings_view(left@) + strings_view(right@)),
{
    let ghost l = strings_view(left@);
    let ghost rv = strings_view(right@);
    left.append(&mut right);
    assert(strings_view(left@) =~= l + rv);
    unique_strings(&left)
}

impl<V> Function<V> {
    /// The bindings the function reads.
    pub fn binding_params(&self) -> (r: Vec<String>)
        ensures
            strings_view(r@) == function_bindings(*self),
        decreases self,
    {
        match self {
            Function::Value(p) => p.get_bindings(),
            Function::Add(a, b) | Function::Sub(a, b) | Function::Mul(a, b) | Function::Div(a, b) => {
                operand_bindings(a.binding_params(), b.binding_params())
            },
            Function::List(l) => {
                let mut r: Vec<String> = Vec::new();
                let mut i: usize = 0;
                assert(strings_view(r@) =~= list_bindings(l@.subrange(0, 0)));
                while i < l.len()
                    invariant
                        i <= l.len(),
                        *self == Function::List(*l),
                        strings_view(r@) == list_bindings(l@.subrange(0, i as int)),
                    decreases l.len() - i,
                {
                    proof {
                        assert(decreases_to!(*self => (*self)->List_0));
                        assert(decreases_to!(l => l[i as int]));
                        assert(l@.subrange(0, i + 1).drop_last() =~= l@.subrange(0, i as int));
                    }
                    let mut b = l[i].binding_params();
                    let ghost before = strings_view(r@);
                    let ghost added = strings_view(b@);
                    r.append(&mut b);
                    assert(strings_view(r@) =~= before + added);
                    i = i + 1;
                }
                assert(l@.subrange(0, i as int) =~= l@);
                r
            },
            Function::ConvertToEntityId(g) | Function::ConvertToNumber(g) => g.binding_params(),
        }
    }
}

/// An arithmetic operation of a function.
#[derive(Clone, Copy, Debug, PartialEq, Eq, Structural)]
pub enum ArithOp {
    Add,
    Sub,
    Mul,
    Div,
}

/// `arith` can be called on any operation and operands and gives the same
/// result each time; it gives none for operands of types the operation does
/// not take.
pub open spec fn arith_decides<V, O: Fn(ArithOp, V, V) -> Option<V>>(arith: O) -> bool {
    forall|op: ArithOp, a: V, b: V|
        #![trigger arith.requires((op, a, b))]
        arith.requires((op, a, b)) && forall|r1: Option<V>, r2: Option<V>|
            #[trigger] arith.ensures((op, a, b), r1) && #[trigger] arith.ensures((op, a, b), r2)
                ==> r1 == r2
}

/// What `arith` gives for an operation on two operands.
pub open spec fn applied<V, O: Fn(ArithOp, V, V) -> Option<V>>(arith: O, op: ArithOp, a: V, b: V) -> Option<
    V,
> {
    choose|r: Option<V>| arith.ensures((op, a, b), r)
}

/// `conv` can be called on any value and gives the same result each time.
pub open spec fn conv_decides<V, T: Fn(V) -> Option<V>>(conv: T) -> bool {
    forall|a: V|
        #![trigger conv.requires((a,))]
        conv.requires((a,)) && forall|r1: Option<V>, r2: Option<V>|
            #[trigger] conv.ensures((a,), r1) && #[trigger] conv.ensures((a,), r2) ==> r1 == r2
}

/// What `conv` gives for a value.
pub open spec fn converted<V, T: Fn(V) -> Option<V>>(conv: T, a: V) -> Option<V> {
    choose|r: Option<V>| conv.ensures((a,), r)
}

/// The value of a function under the bindings `m`: a pattern's value with
/// the bindings filled in; an operation applied by `arith` to the values of
/// both operands, none if either has none; the vector that `make_vec` makes
/// of the values of the list's items that have one; and a conversion by
/// `to_entity_id` or `to_number` of its function's value.
pub open spec fn evaluation<
    V,
    M: Fn(Vec<V>) -> V,
    O: Fn(ArithOp, V, V) -> Option<V>,
    T: Fn(V) -> Option<V>,
    N: Fn(V) -> Option<V>,
>(f: Function<V>, m: Map<Seq<char>, V>, make_vec: M, arith: O, to_entity_id: T, to_number: N) -> Option<
    V,
>
    decreases f,
{
    match f {
        Function::Value(p) => value_with_bindings(p, m, make_vec),
        Function::Add(a, b) => operation_value(
            ArithOp::Add,
            evaluation(*a, m, make_vec, arith, to_entity_id, to_number),
            evaluation(*b, m, make_vec, arith, to_entity_id, to_number),
            arith,
        ),
        Function::Sub(a, b) => operation_value(
            ArithOp::Sub,
            evaluation(*a, m, make_vec, arith, to_entity_id, to_number),
            evaluation(*b, m, make_vec, arith, to_entity_id, to_number),
            arith,
        ),
        Function::Mul(a, b) => operation_value(
            ArithOp::Mul,
            evaluation(*a, m, make_vec, arith, to_entity_id, to_number),
            evaluation(*b, m, make_vec, arith, to_entity_id, to_number),
            arith,
        ),
        Function::Div(a, b) => operation_value(
            ArithOp::Div,
            evaluation(*a, m, make_vec, arith, to_entity_id, to_number),
            evaluation(*b, m, make_vec, arith, to_entity_id, to_number),
            arith,
        ),
        Function::List(l) => {
            proof {
                assert(decreases_to!(l => l@));
            }
            Some(made_vec(make_vec, list_values(l@, m, make_vec, arith, to_entity_id, to_number)))
        },
        Function::ConvertToEntityId(g) => match evaluation(
            *g,
            m,
            make_vec,
            arith,
            to_entity_id,
            to_number,
        ) {
            Some(x) => converted(to_entity_id, x),
            None => None,
        },
        Function::ConvertToNumber(g) => match evaluation(
            *g,
            m,
            make_vec,
            arith,
            to_entity_id,
            to_number,
        ) {
            Some(x) => converted(to_number, x),
            None => None,
        },
    }
}

/// An operation applied to the values of its operands, none if either has
/// none.
pub open spec fn operation_value<V, O: Fn(ArithOp, V, V) -> Option<V>>(
    op: ArithOp,
    x: Option<V>,
    y: Option<V>,
    arith: O,
) -> Option<V> {
    match (x, y) {
        (Some(a), Some(b)) => applied(arith, op, a, b),
        _ => None,
    }
}

/// The values of the functions of a list that have one, in order.
pub open spec fn list_values<
    V,
    M: Fn(Vec<V>) -> V,
    O: Fn(ArithOp, V, V) -> Option<V>,
    T: Fn(V) -> Option<V>,
    N: Fn(V) -> Option<V>,
>(s: Seq<Function<V>>, m: Map<Seq<char>, V>, make_vec: M, arith: O, to_entity_id: T, to_number: N) -> Seq<
    V,
>
    decreases s,
{
    if s.len() == 0 {
        seq![]
    } else {
        let init = list_values(s.drop_last(), m, make_vec, arith, to_entity_id, to_number);
        match evaluation(s.last(), m, make_vec, arith, to_entity_id, to_number) {
            Some(v) => init.push(v),
            None => init,
        }
    }
}

/// The arithmetic function of the operation over the two operands.
pub open spec fn arithmetic_function<V>(op: ArithOp, a: Function<V>, b: Function<V>) -> Function<V> {
    match op {
        ArithOp::Add => Function::Add(Box::new(a), Box::new(b)),
        ArithOp::Sub => Function::Sub(Box::new(a), Box::new(b)),
        ArithOp::Mul => Function::Mul(Box::new(a), Box::new(b)),
        ArithOp::Div => Function::Div(Box::new(a), Box::new(b)),
    }
}

/// An arithmetic function has a value exactly when both operands have one,
/// and then it is what `arith` gives for the operation applied to the
/// first operand's value and the second's, in that order.
pub proof fn lemma_arithmetic_function_value<
    V,
    M: Fn(Vec<V>) -> V,
    O: Fn(ArithOp, V, V) -> Option<V>,
    T: Fn(V) -> Option<V>,
    N: Fn(V) -> Option<V>,
>(
    op: ArithOp,
    a: Function<V>,
    b: Function<V>,
    m: Map<Seq<char>, V>,
    make_vec: M,
    arith: O,
    to_entity_id: T,
    to_number: N,
)
    ensures
        evaluation(a, m, make_vec, arith, to_entity_id, to_number) is None || evaluation(
            b,
            m,
            make_vec,
            arith,
            to_entity_id,
            to_number,
        ) is None ==> evaluation(arithmetic_function(op, a, b), m, make_vec, arith, to_entity_id, to_number) is None,
        evaluation(a, m, make_vec, arith, to_entity_id, to_number) is Some && evaluation(
            b,
            m,
            make_vec,
            arith,
            to_entity_id,
            to_number,
        ) is Some ==> evaluation(arithmetic_function(op, a, b), m, make_vec, arith, to_entity_id, to_number)
            == applied(
            arith,
            op,
            evaluation(a, m, make_vec, arith, to_entity_id, to_number)->Some_0,
            evaluation(b, m, make_vec, arith, to_entity_id, to_number)->Some_0,
        ),
{
}

/// The values of two lists of functions, one after the other, are the
/// values of the first list followed by those of the second: evaluating a
/// list keeps the order of its items.
pub proof fn lemma_list_values_concat<
    V,
    M: Fn(Vec<V>) -> V,
    O: Fn(ArithOp, V, V) -> Option<V>,
    T: Fn(V) -> Option<V>,
    N: Fn(V) -> Option<V>,
>(
    s: Seq<Function<V>>,
    t: Seq<Function<V>>,
    m: Map<Seq<char>, V>,
    make_vec: M,
    arith: O,
    to_entity_id: T,
    to_number: N,
)
    ensures
        list_values(s + t, m, make_vec, arith, to_entity_id, to_number) == list_values(
            s,
            m,
            make_vec,
            arith,
            to_entity_id,
            to_number,
        ) + list_values(t, m, make_vec, arith, to_entity_id, to_number),
    decreases t.len(),
{
    if t.len() == 0 {
        assert(s + t =~= s);
        assert(list_values(s, m, make_vec, arith, to_entity_id, to_number) + Seq::<V>::empty() =~= list_values(
            s,
            m,
            make_vec,
            arith,
            to_entity_id,
            to_number,
        ));
    } else {
        lemma_list_values_concat(s, t.drop_last(), m, make_vec, arith, to_entity_id, to_number);
        assert((s + t).drop_last() =~= s + t.drop_last());
        assert((s + t).last() == t.last());
        let a = list_values(s, m, make_vec, arith, to_entity_id, to_number);
        let b = list_values(t.drop_last(), m, make_vec, arith, to_entity_id, to_number);
        match evaluation(t.last(), m, make_vec, arith, to_entity_id, to_number) {
            Some(v) => {
                assert((a + b).push(v) =~= a + b.push(v));
            },
            None => {},
        }
    }
}

/// When every item of a list has a value, the list's values are those of
/// its items, one for each, in the items' order.
pub proof fn lemma_list_values_in_order<
    V,
    M: Fn(Vec<V>) -> V,
    O: Fn(ArithOp, V, V) -> Option<V>,
    T: Fn(V) -> Option<V>,
    N: Fn(V) -> Option<V>,
>(
    s: Seq<Function<V>>,
    m: Map<Seq<char>, V>,
    make_vec: M,
    arith: O,
    to_entity_id: T,
    to_number: N,
)
    requires
        forall|i: int| 0 <= i < s.len() ==> #[trigger] evaluation(s[i], m, make_vec, arith, to_entity_id, to_number) is Some,
    ensures
        list_values(s, m, make_vec, arith, to_entity_id, to_number).len() == s.len(),
        forall|i: int|
            0 <= i < s.len() ==> Some(#[trigger] list_values(s, m, make_vec, arith, to_entity_id, to_number)[i])
                == evaluation(s[i], m, make_vec, arith, to_entity_id, to_number),
    decreases s.len(),
{
    if s.len() > 0 {
        let p = s.drop_last();
        assert forall|i: int| 0 <= i < p.len() implies #[trigger] evaluation(p[i], m, make_vec, arith, to_entity_id, to_number) is Some by {
            assert(p[i] == s[i]);
        }
        lemma_list_values_in_order(p, m, make_vec, arith, to_entity_id, to_number);
        assert(evaluation(s[s.len() - 1], m, make_vec, arith, to_entity_id, to_number) is Some);
        assert forall|i: int| 0 <= i < s.len() implies Some(#[trigger] list_values(s, m, make_vec, arith, to_entity_id, to_number)[i])
            == evaluation(s[i], m, make_vec, arith, to_entity_id, to_number) by {
            if i < s.len() - 1 {
                assert(p[i] == s[i]);
            }
        }
    }
}

/// Evaluating a list function whose items all have values makes, with
/// `make_vec`, the vector of its items' values in the items' order: the
/// `i`-th element is the value of the `i`-th item.
pub proof fn lemma_list_function_value<
    V,
    M: Fn(Vec<V>) -> V,
    O: Fn(ArithOp, V, V) -> Option<V>,
    T: Fn(V) -> Option<V>,
    N: Fn(V) -> Option<V>,
>(
    items: Vec<Function<V>>,
    m: Map<Seq<char>, V>,
    make_vec: M,
    arith: O,
    to_entity_id: T,
    to_number: N,
)
    requires
        forall|i: int|
            0 <= i < items@.len() ==> #[trigger] evaluation(items@[i], m, make_vec, arith, to_entity_id, to_number) is Some,
    ensures
        exists|vals: Seq<V>|
            {
                &&& vals.len() == items@.len()
                &&& forall|i: int|
                    0 <= i < items@.len() ==> Some(#[trigger] vals[i]) == evaluation(
                        items@[i],
                        m,
                        make_vec,
                        arith,
                        to_entity_id,
                        to_number,
                    )
                &&& evaluation(Function::List(items), m, make_vec, arith, to_entity_id, to_number) == Some(
                    made_vec(make_vec, vals),
                )
            },
{
    lemma_list_values_in_order(items@, m, make_vec, arith, to_entity_id, to_number);
    let vals = list_values(items@, m, make_vec, arith, to_entity_id, to_number);
    assert(evaluation(Function::List(items), m, make_vec, arith, to_entity_id, to_number) == Some(
        made_vec(make_vec, vals),
    ));
}

/// Applies `arith`, whose result is what it gives for those operands.
fn apply_arith<V, O: Fn(ArithOp, V, V) -> Option<V>>(arith: &O, op: ArithOp, a: V, b: V) -> (r: Option<
    V,
>)
    requires
        arith_decides(*arith),
    ensures
        r == applied(*arith, op, a, b),
{
    let ghost (ga, gb) = (a, b);
    assert(arith.requires((op, a, b)));
    let r = arith(op, a, b);
    assert(arith.ensures((op, ga, gb), r));
    r
}

/// Applies a conversion, whose result is what it gives for that value.
fn apply_conv<V, T: Fn(V) -> Option<V>>(conv: &T, a: V) -> (r: Option<V>)
    requires
        conv_decides(*conv),
    ensures
        r == converted(*conv, a),
{
    let ghost ga = a;
    assert(conv.requires((a,)));
    let r = conv(a);
    assert(conv.ensures((ga,), r));
    r
}

impl<V: Clone> Function<V> {
    /// The value of the function under the bindings, if it has one; the
    /// arithmetic and the conversions are handed in.
    pub fn evaluate<
        M: Fn(Vec<V>) -> V,
        O: Fn(ArithOp, V, V) -> Option<V>,
        T: Fn(V) -> Option<V>,
        N: Fn(V) -> Option<V>,
    >(
        &self,
        bindings: &StrMap<V>,
        make_vec: &M,
        arith: &O,
        to_entity_id: &T,
        to_number: &N,
    ) -> (r: Option<V>)
        requires
            make_vec_decides(*make_vec),
            clones_equal::<V>(),
            arith_decides(*arith),
            conv_decides(*to_entity_id),
            conv_decides(*to_number),
        ensures
            r == evaluation(*self, bindings@, *make_vec, *arith, *to_entity_id, *to_number),
        decreases self,
    {
        match self {
            Function::Value(p) => p.get_value_with_bindings(bindings, make_vec),
            Function::Add(a, b) => {
                let x = match a.evaluate(bindings, make_vec, arith, to_entity_id, to_number) {
                    Some(x) => x,
                    None => {
                        return None;
                    },
                };
                let y = match b.evaluate(bindings, make_vec, arith, to_entity_id, to_number) {
                    Some(y) => y,
                    None => {
                        return None;
                    },
                };
                apply_arith(arith, ArithOp::Add, x, y)
            },
            Function::Sub(a, b) => {
                let x = match a.evaluate(bindings, make_vec, arith, to_entity_id, to_number) {
                    Some(x) => x,
                    None => {
                        return None;
                    },
                };
                let y = match b.evaluate(bindings, make_vec, arith, to_entity_id, to_number) {
                    Some(y) => y,
                    None => {
                        return None;
                    },
                };
                apply_arith(arith, ArithOp::Sub, x, y)
            },
            Function::Mul(a, b) => {
                let x = match a.evaluate(bindings, make_vec, arith, to_entity_id, to_number) {
                    Some(x) => x,
                    None => {
                        return None;
                    },
                };
                let y = match b.evaluate(bindings, make_vec, arith, to_entity_id, to_number) {
                    Some(y) => y,
                    None => {
                        return None;
                    },
                };
                apply_arith(arith, ArithOp::Mul, x, y)
            },
            Function::Div(a, b) => {
                let x = match a.evaluate(bindings, make_vec, arith, to_entity_id, to_number) {
                    Some(x) => x,
                    None => {
                        return None;
                    },
                };
                let y = match b.evaluate(bindings, make_vec, arith, to_entity_id, to_number) {
                    Some(y) => y,
                    None => {
                        return None;
                    },
                };
                apply_arith(arith, ArithOp::Div, x, y)
            },
            Function::List(items) => {
                let mut out: Vec<V> = Vec::new();
                let mut i: usize = 0;
                assert(items@.subrange(0, 0) =~= Seq::<Function<V>>::empty());
                while i < items.len()
                    invariant
                        i <= items.len(),
                        *self == Function::List(*items),
                        make_vec_decides(*make_vec),
                        clones_equal::<V>(),
                        arith_decides(*arith),
                        conv_decides(*to_entity_id),
                        conv_decides(*to_number),
                        out@ == list_values(
                            items@.subrange(0, i as int),
                            bindings@,
                            *make_vec,
                            *arith,
                            *to_entity_id,
                            *to_number,
                        ),
                    decreases items.len() - i,
                {
                    proof {
                        assert(decreases_to!(*self => (*self)->List_0));
                        assert(decreases_to!(items => items[i as int]));
                    }
                    let ghost prefix = items@.subrange(0, i + 1);
                    assert(prefix.drop_last() =~= items@.subrange(0, i as int));
                    assert(prefix.last() == items@[i as int]);
                    match items[i].evaluate(bindings, make_vec, arith, to_entity_id, to_number) {
                        Some(v) => out.push(v),
                        None => {},
                    }
                    i = i + 1;
                }
                assert(items@.subrange(0, i as int) =~= items@);
                let ghost w = out;
                let v = make_vec(out);
                proof {
                    lemma_made_vec(*make_vec, w, v);
                }
                Some(v)
            },
            Function::ConvertToEntityId(g) => match g.evaluate(
                bindings,
                make_vec,
                arith,
                to_entity_id,
                to_number,
            ) {
                Some(x) => apply_conv(to_entity_id, x),
                None => None,
            },
            Function::ConvertToNumber(g) => match g.evaluate(
                bindings,
                make_vec,
                arith,
                to_entity_id,
                to_number,
            ) {
                Some(x) => apply_conv(to_number, x),
                None => None,
            },
        }
    }
}

/// `b` is a copy of `a`: the same operations, patterns cloned item by item.
pub open spec fn function_cloned<V: Clone>(a: Function<V>, b: Function<V>) -> bool
    decreases a,
{
    match a {
        Function::Value(p) => b is Value && item_cloned(p, b->Value_0),
        Function::Add(x, y) => b is Add && function_cloned(*x, *b->Add_0) && function_cloned(
            *y,
            *b->Add_1,
        ),
        Function::Sub(x, y) => b is Sub && function_cloned(*x, *b->Sub_0) && function_cloned(
            *y,
            *b->Sub_1,
        ),
        Function::Mul(x, y) => b is Mul && function_cloned(*x, *b->Mul_0) && function_cloned(
            *y,
            *b->Mul_1,
        ),
        Function::Div(x, y) => b is Div && function_cloned(*x, *b->Div_0) && function_cloned(
            *y,
            *b->Div_1,
        ),
        Function::List(l) => {
            &&& b is List
            &&& b->List_0@.len() == l@.len()
            &&& forall|i: int|
                0 <= i < l@.len() ==> {
                    proof {
                        assert(decreases_to!(l => l@[i]));
                    }
                    function_cloned(#[trigger] l@[i], b->List_0@[i])
                }
        },
        Function::ConvertToEntityId(g) => b is ConvertToEntityId && function_cloned(
            *g,
            *b->ConvertToEntityId_0,
        ),
        Function::ConvertToNumber(g) => b is ConvertToNumber && function_cloned(
            *g,
            *b->ConvertToNumber_0,
        ),
    }
}

impl<V: Clone> Clone for Function<V> {
    fn clone(&self) -> (r: Self)
        ensures
            function_cloned(*self, r),
        decreases self,
    {
        match self {
            Function::Value(p) => Function::Value(p.clone()),
            Function::Add(x, y) => Function::Add(Box::new((**x).clone()), Box::new((**y).clone())),
            Function::Sub(x, y) => Function::Sub(Box::new((**x).clone()), Box::new((**y).clone())),
            Function::Mul(x, y) => Function::Mul(Box::new((**x).clone()), Box::new((**y).clone())),
            Function::Div(x, y) => Function::Div(Box::new((**x).clone()), Box::new((**y).clone())),
            Function::List(items) => {
                let mut out: Vec<Function<V>> = Vec::new();
                let mut i: usize = 0;
                while i < items.len()
                    invariant
                        i <= items.len(),
                        *self == Function::List(*items),
                        out@.len() == i,
                        forall|j: int| 0 <= j < i ==> function_cloned(#[trigger] items@[j], out@[j]),
                    decreases items.len() - i,
                {
                    proof {
                        assert(decreases_to!(*self => (*self)->List_0));
                        assert(decreases_to!(items => items[i as int]));
                    }
                    out.push(items[i].clone());
                    i = i + 1;
                }
                Function::List(out)
            },
            Function::ConvertToEntityId(g) => Function::ConvertToEntityId(Box::new((**g).clone())),
            Function::ConvertToNumber(g) => Function::ConvertToNumber(Box::new((**g).clone())),
        }
    }
}

} // verus!
