use aera::interfaces::CommIds;
use aera::runtime::learning::full_causal_model_comparison::compare_casual_models_with_bindings;
use aera::runtime::pattern_matching::combine_pattern_bindings;
use aera::str_map::StrMap;
use aera::types::cst::{Cst, ICst};
use aera::types::functions::{ArithOp, Function};
use aera::types::models::{BoundModel, Mdl, MdlLeftValue, MdlRightValue};
use aera::types::pattern::PatternItem;
use aera::types::runtime::System;
use aera::types::{Command, EntityDeclaration, EntityPatternValue, Fact, MkVal, TimePatternRange};

fn as_vec(v: &i64) -> Option<Vec<i64>> {
    if *v < 0 { Some(vec![*v, -*v]) } else { None }
}

fn make_vec(items: Vec<i64>) -> i64 {
    items.iter().sum()
}

fn arith(op: ArithOp, a: i64, b: i64) -> Option<i64> {
    match op {
        ArithOp::Add => Some(a + b),
        ArithOp::Sub => Some(a - b),
        ArithOp::Mul => Some(a * b),
        ArithOp::Div => if b == 0 { None } else { Some(a / b) },
    }
}

fn same(v: i64) -> Option<i64> {
    Some(v)
}

fn eq(a: &i64, b: &i64) -> bool {
    a == b
}

fn binding(name: &str) -> PatternItem<i64> {
    PatternItem::Binding(name.to_string())
}

fn sample_pattern() -> Vec<PatternItem<i64>> {
    vec![binding("x"), PatternItem::Value(4), PatternItem::Any, PatternItem::Vec(vec![binding("y"), PatternItem::Value(2)])]
}

#[test]
fn the_empty_pattern_is_an_identity_of_combining() {
    assert_eq!(combine_pattern_bindings(sample_pattern(), Vec::new(), &as_vec), sample_pattern());
    assert_eq!(combine_pattern_bindings(Vec::new(), sample_pattern(), &as_vec), sample_pattern());
}

#[test]
fn combining_a_pattern_with_itself_gives_it_back() {
    assert_eq!(combine_pattern_bindings(sample_pattern(), sample_pattern(), &as_vec), sample_pattern());
}

#[test]
fn ids_and_names_are_inverse_on_registered_pairs() {
    let mut ids = CommIds::new();
    ids.insert(1, "hand");
    ids.insert(2, "cube");
    ids.insert(3, "hand");
    assert_eq!(ids.get_name(ids.get_id("cube")), "cube");
    assert_eq!(ids.get_name(ids.get_id("hand")), "hand");
}

fn mk_val(entity: EntityPatternValue, var: &str, value: PatternItem<i64>) -> MkVal<i64> {
    MkVal { entity_id: entity, var_name: var.to_string(), value, assumption: false }
}

#[test]
fn expanding_a_state_with_its_own_binding_names_gives_it_back() {
    let mut cst = Cst::new("S1".to_string());
    cst.entities.push(EntityDeclaration::new("h", "hand"));
    cst.facts.push(Fact::new(
        mk_val(EntityPatternValue::Binding("h".to_string()), "pos", PatternItem::Vec(vec![binding("p"), PatternItem::Value(1)])),
        TimePatternRange::wildcard(),
    ));
    cst.facts.push(Fact::new(
        mk_val(EntityPatternValue::EntityId("o1".to_string()), "size", binding("s")),
        TimePatternRange::wildcard(),
    ));
    let params: Vec<PatternItem<i64>> = cst.binding_params().into_iter().map(PatternItem::Binding).collect();
    assert_eq!(params, vec![binding("h"), binding("p"), binding("s")]);
    let icst = ICst { cst_id: "S1".to_string(), params };
    let copy = Cst { cst_id: cst.cst_id.clone(), facts: cst.facts.iter().map(|f| f.clone()).collect(), entities: cst.entities.clone() };
    let expanded = icst.expand_cst(copy, |v: &i64| Some(format!("e{v}")));
    assert_eq!(expanded, cst);
}

fn value_of(name: &str) -> Box<Function<i64>> {
    Box::new(Function::Value(binding(name)))
}

/// `move(c, d)` puts entity `c` at `np = p + d`.
fn moving_model() -> Mdl<i64, f64> {
    Mdl {
        model_id: "M".to_string(),
        left: Fact::new(
            MdlLeftValue::Command(Command {
                name: "move".to_string(),
                entity_id: EntityPatternValue::Binding("c".to_string()),
                params: vec![binding("d")],
            }),
            TimePatternRange::wildcard(),
        ),
        right: Fact::new(
            MdlRightValue::MkVal(mk_val(EntityPatternValue::Binding("c".to_string()), "pos", binding("np"))),
            TimePatternRange::wildcard(),
        ),
        confidence: 1.0,
        success_count: 0,
        forward_computed: vec![("np".to_string(), Function::Add(value_of("p"), value_of("d")))],
        backward_computed: vec![("p".to_string(), Function::Sub(value_of("np"), value_of("d")))],
    }
}

#[test]
fn an_instantiation_made_from_bindings_gives_them_back() {
    let mut bindings: StrMap<i64> = StrMap::new();
    bindings.insert("c".to_string(), 7);
    bindings.insert("d".to_string(), 2);
    let bm = BoundModel { bindings, model: moving_model() };
    let mut system: System<i64, f64> = System::new();
    system.models.insert("M".to_string(), moving_model());
    let imdl = bm.imdl_for_model();
    let again = imdl.instantiate(&StrMap::new(), &system, &make_vec, &arith, &same, &same);
    assert_eq!(again.bindings.get(&"c".to_string()), Some(&7));
    assert_eq!(again.bindings.get(&"d".to_string()), Some(&2));
    assert_eq!(again.bindings.get(&"p".to_string()), None);
}

#[test]
fn a_causal_model_matches_itself() {
    let model = moving_model();
    assert!(compare_casual_models_with_bindings(&model, &model.clone(), &eq));
}

#[test]
fn a_model_on_an_instantiated_model_matches_itself() {
    let mut guards: StrMap<i64> = StrMap::new();
    guards.insert("np".to_string(), 5);
    guards.insert("q".to_string(), 9);
    let model: Mdl<i64, f64> = Mdl {
        model_id: "R".to_string(),
        left: Fact::new(
            MdlLeftValue::IMdl(aera::types::models::IMdl {
                model_id: "M".to_string(),
                params: vec![binding("c"), PatternItem::Value(3), binding("p")],
                fwd_guard_bindings: guards,
            }),
            TimePatternRange::wildcard(),
        ),
        right: Fact::new(
            MdlRightValue::MkVal(mk_val(EntityPatternValue::Binding("c".to_string()), "seen", binding("p"))),
            TimePatternRange::wildcard(),
        ),
        confidence: 1.0,
        success_count: 0,
        forward_computed: Vec::new(),
        backward_computed: Vec::new(),
    };
    assert!(compare_casual_models_with_bindings(&model, &model.clone(), &eq));
}

#[test]
fn ids_and_names_stay_inverse_after_registering_lists_and_maps() {
    let mut c = CommIds::new();
    c.insert(1, "a");
    c.insert_all(&vec![("b".to_string(), 2), ("c".to_string(), 3), ("b".to_string(), 4)]);
    let mut m: StrMap<i32> = StrMap::new();
    m.insert("d".to_string(), 5);
    c.insert_map(&m);
    for name in ["a", "b", "c", "d"] {
        assert_eq!(c.get_name(c.get_id(name)), name);
    }
    assert_eq!(c.get_id("b"), 4);
}
