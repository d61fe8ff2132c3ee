use aera::runtime::simulation::forward::compute_instantiate_casual_models;
use aera::types::cst::BoundCst;
use aera::runtime::simulation::backward::{
    backward_chain, create_variations_of_sub_goal, get_goal_requirements_for_goal,
    run_get_goal_requirements_for_goal, variations_for_orders, MAX_DEPTH,
};
use aera::types::cst::ICst;
use aera::types::functions::{ArithOp, Function};
use aera::types::models::{IMdl, Mdl, MdlLeftValue, MdlRightValue};
use aera::types::pattern::PatternItem;
use aera::types::runtime::System;
use aera::types::{Command, EntityDeclaration, EntityPatternValue, Fact, MkVal, TimePatternRange};

#[derive(Clone, Debug, PartialEq)]
enum Val {
    Num(i64),
    Id(String),
    List(Vec<Val>),
}

fn val_eq(a: &Val, b: &Val) -> bool {
    a == b
}

fn val_as_vec(v: &Val) -> Option<Vec<Val>> {
    match v {
        Val::List(items) => Some(items.clone()),
        _ => None,
    }
}

fn val_make_vec(items: Vec<Val>) -> Val {
    Val::List(items)
}

fn val_arith(op: ArithOp, a: Val, b: Val) -> Option<Val> {
    match (a, b) {
        (Val::Num(x), Val::Num(y)) => match op {
            ArithOp::Add => Some(Val::Num(x + y)),
            ArithOp::Sub => Some(Val::Num(x - y)),
            ArithOp::Mul => Some(Val::Num(x * y)),
            ArithOp::Div => if y == 0 { None } else { Some(Val::Num(x / y)) },
        },
        _ => None,
    }
}

fn val_same(v: Val) -> Option<Val> {
    Some(v)
}

fn entity_id_of(v: &Val) -> Option<String> {
    match v {
        Val::Id(id) => Some(id.clone()),
        _ => None,
    }
}

fn id_of(v: &Val) -> String {
    match v {
        Val::Id(id) => id.clone(),
        Val::Num(n) => format!("{n}"),
        Val::List(_) => "list".to_string(),
    }
}

fn entity_value(id: &String) -> Val {
    Val::Id(id.clone())
}

fn confident(c: &f64) -> bool {
    *c > 0.5
}

fn bind(name: &str) -> PatternItem<Val> {
    PatternItem::Binding(name.to_string())
}

fn num(n: i64) -> PatternItem<Val> {
    PatternItem::Value(Val::Num(n))
}

fn fact(entity: EntityPatternValue, var: &str, value: PatternItem<Val>) -> Fact<MkVal<Val>> {
    Fact::new(MkVal { entity_id: entity, var_name: var.to_string(), value, assumption: false }, TimePatternRange::wildcard())
}

fn binding(name: &str) -> EntityPatternValue {
    EntityPatternValue::Binding(name.to_string())
}

fn entity(name: &str) -> EntityPatternValue {
    EntityPatternValue::EntityId(name.to_string())
}

/// A hand `h1` at position 3 and an object `o1` at position 5.
fn hand_and_object() -> System<Val, f64> {
    let mut system: System<Val, f64> = System::new();
    system.create_entity("h1", "hand");
    system.create_entity("o1", "obj");
    system.current_state.variables.insert(("h1".to_string(), "pos".to_string()), Val::Num(3));
    system.current_state.variables.insert(("o1".to_string(), "pos".to_string()), Val::Num(5));
    system
}

fn both_at_p() -> Vec<Fact<MkVal<Val>>> {
    vec![fact(binding("h"), "pos", bind("p")), fact(binding("o"), "pos", bind("p"))]
}

fn declarations() -> Vec<EntityDeclaration> {
    vec![EntityDeclaration::new("h", "hand"), EntityDeclaration::new("o", "obj")]
}

#[test]
fn each_fact_order_gives_a_variation() {
    let decls = declarations();
    let variations = create_variations_of_sub_goal(
        &both_at_p(), Some(&decls), &hand_and_object(), &entity_value, &id_of, &val_as_vec, &val_eq,
    );
    assert_eq!(
        variations,
        vec![
            vec![fact(entity("h1"), "pos", num(3)), fact(entity("o1"), "pos", num(3))],
            vec![fact(entity("h1"), "pos", num(5)), fact(entity("o1"), "pos", num(5))],
        ]
    );
}

#[test]
fn orders_that_choose_the_same_bindings_give_one_variation() {
    let goal = vec![fact(entity("h1"), "pos", bind("p")), fact(entity("o1"), "pos", bind("q"))];
    let variations =
        create_variations_of_sub_goal(&goal, None, &hand_and_object(), &entity_value, &id_of, &val_as_vec, &val_eq);
    assert_eq!(variations, vec![vec![fact(entity("h1"), "pos", num(3)), fact(entity("o1"), "pos", num(5))]]);
}

#[test]
fn variations_follow_the_orders_given() {
    let decls = declarations();
    let orders = vec![vec![1, 0], vec![0, 1], vec![1, 0]];
    let variations = variations_for_orders(
        &both_at_p(), &orders, Some(&decls), &hand_and_object(), &entity_value, &id_of, &val_as_vec, &val_eq,
    );
    assert_eq!(variations.len(), 2);
    assert_eq!(variations[0][0], fact(entity("h1"), "pos", num(5)));
    assert_eq!(variations[1][1], fact(entity("o1"), "pos", num(3)));
}

#[test]
fn unheld_variables_and_unused_declarations_leave_bindings_open() {
    let goal = vec![fact(binding("h"), "color", bind("c"))];
    let decls = vec![EntityDeclaration::new("h", "hand"), EntityDeclaration::new("z", "obj")];
    let variations =
        create_variations_of_sub_goal(&goal, Some(&decls), &hand_and_object(), &entity_value, &id_of, &val_as_vec, &val_eq);
    assert_eq!(variations, vec![vec![fact(entity("h1"), "color", bind("c"))]]);
}

fn value_of(name: &str) -> Box<Function<Val>> {
    Box::new(Function::Value(bind(name)))
}

/// `move(c, d)` puts entity `c` at `np = p + d`; backwards, `p = np - d`.
fn moving_model(success_count: usize, confidence: f64) -> Mdl<Val, f64> {
    Mdl {
        model_id: "M".to_string(),
        left: Fact::new(
            MdlLeftValue::Command(Command { name: "move".to_string(), entity_id: binding("c"), params: vec![bind("d")] }),
            TimePatternRange::wildcard(),
        ),
        right: Fact::new(
            MdlRightValue::MkVal(MkVal { entity_id: binding("c"), var_name: "pos".to_string(), value: bind("np"), assumption: false }),
            TimePatternRange::wildcard(),
        ),
        confidence,
        success_count,
        forward_computed: vec![("np".to_string(), Function::Add(value_of("p"), value_of("d")))],
        backward_computed: vec![("p".to_string(), Function::Sub(value_of("np"), value_of("d")))],
    }
}

fn system_with(model: Mdl<Val, f64>) -> System<Val, f64> {
    let mut system = hand_and_object();
    system.models.insert(model.model_id.clone(), model);
    system
}

fn goal_h1_at(n: i64) -> Fact<MkVal<Val>> {
    fact(entity("h1"), "pos", num(n))
}

#[test]
fn backward_chaining_finds_the_causal_model() {
    let data = system_with(moving_model(2, 1.0));
    let found = backward_chain(
        &goal_h1_at(13), &data, &confident, &val_eq, &val_as_vec, &val_make_vec, &val_arith, &val_same, &val_same,
        &entity_id_of, &id_of, &entity_value,
    );
    assert_eq!(found.len(), 1);
    assert_eq!(found[0].0.model_id, "M");
    assert_eq!(found[0].1, 0);
    assert!(found.iter().all(|(_, depth)| *depth < MAX_DEPTH));
}

#[test]
fn unproven_or_unconfident_models_are_not_used() {
    let rarely = system_with(moving_model(1, 1.0));
    assert!(backward_chain(
        &goal_h1_at(13), &rarely, &confident, &val_eq, &val_as_vec, &val_make_vec, &val_arith, &val_same, &val_same,
        &entity_id_of, &id_of, &entity_value,
    )
    .is_empty());
    let doubtful = system_with(moving_model(5, 0.2));
    assert!(backward_chain(
        &goal_h1_at(13), &doubtful, &confident, &val_eq, &val_as_vec, &val_make_vec, &val_arith, &val_same, &val_same,
        &entity_id_of, &id_of, &entity_value,
    )
    .is_empty());
}

#[test]
fn a_goal_the_current_state_reaches_is_marked_reached() {
    let data = system_with(moving_model(2, 1.0));
    let model = moving_model(2, 1.0);
    let reachable = vec![IMdl { model_id: "M".to_string(), params: Vec::new(), fwd_guard_bindings: aera::str_map::StrMap::new() }];
    let mut goals: Vec<(Fact<MkVal<Val>>, usize)> = Vec::new();
    let mut csts: Vec<(ICst<Val>, usize)> = Vec::new();
    let (reqs, subs, reached) = get_goal_requirements_for_goal(
        &goal_h1_at(13), &reachable, &vec![model], &Vec::new(), &data, &mut goals, &mut csts, 2,
        &val_eq, &val_as_vec, &val_make_vec, &val_arith, &val_same, &val_same, &entity_id_of, &id_of, &entity_value,
    );
    assert!(reached);
    assert_eq!(reqs.len(), 1);
    assert_eq!(reqs[0].1, 2);
    assert!(subs.is_empty());
}

#[test]
fn nothing_is_looked_at_from_the_depth_limit_on() {
    let data = system_with(moving_model(2, 1.0));
    let mut goals: Vec<(Fact<MkVal<Val>>, usize)> = vec![(goal_h1_at(1), 3)];
    let mut csts: Vec<(ICst<Val>, usize)> = Vec::new();
    let (reqs, subs, reached) = get_goal_requirements_for_goal(
        &goal_h1_at(13), &Vec::new(), &vec![moving_model(2, 1.0)], &Vec::new(), &data, &mut goals, &mut csts,
        MAX_DEPTH, &val_eq, &val_as_vec, &val_make_vec, &val_arith, &val_same, &val_same, &entity_id_of, &id_of,
        &entity_value,
    );
    assert!(reqs.is_empty() && subs.is_empty() && !reached);
    assert_eq!(goals.len(), 1);
    let all = run_get_goal_requirements_for_goal(
        &goal_h1_at(13), &Vec::new(), &vec![moving_model(2, 1.0)], &Vec::new(), &data, &mut goals, &mut csts,
        &val_eq, &val_as_vec, &val_make_vec, &val_arith, &val_same, &val_same, &entity_id_of, &id_of, &entity_value,
    );
    assert_eq!(all.len(), 1);
    assert_eq!(all[0].1, 0);
}

/// A requirement model: in composite state `S` (a hand `c` at `p`), the
/// moving model can be instantiated.
fn requirement_model() -> Mdl<Val, f64> {
    Mdl {
        model_id: "R".to_string(),
        left: Fact::new(
            MdlLeftValue::ICst(ICst { cst_id: "S".to_string(), params: vec![bind("c"), bind("p")] }),
            TimePatternRange::wildcard(),
        ),
        right: Fact::new(
            MdlRightValue::IMdl(IMdl {
                model_id: "M".to_string(),
                params: vec![bind("c"), bind("d"), bind("p")],
                fwd_guard_bindings: aera::str_map::StrMap::new(),
            }),
            TimePatternRange::wildcard(),
        ),
        confidence: 1.0,
        success_count: 2,
        forward_computed: Vec::new(),
        backward_computed: Vec::new(),
    }
}

fn hand_state() -> aera::types::cst::Cst<Val> {
    aera::types::cst::Cst {
        cst_id: "S".to_string(),
        facts: vec![fact(binding("c"), "pos", bind("p"))],
        entities: vec![EntityDeclaration::new("c", "hand")],
    }
}

#[test]
fn requirement_models_give_sub_goals_for_the_next_depth() {
    let mut data = system_with(moving_model(2, 1.0));
    data.models.insert("R".to_string(), requirement_model());
    data.csts.insert("S".to_string(), hand_state());
    let found = backward_chain(
        &goal_h1_at(13), &data, &confident, &val_eq, &val_as_vec, &val_make_vec, &val_arith, &val_same, &val_same,
        &entity_id_of, &id_of, &entity_value,
    );
    let summary: Vec<(String, usize, Option<Val>)> = found
        .iter()
        .map(|(imdl, depth)| (imdl.model_id.clone(), *depth, imdl.fwd_guard_bindings.get(&"np".to_string()).cloned()))
        .collect();
    assert_eq!(
        summary,
        vec![("M".to_string(), 0, Some(Val::Num(13))), ("M".to_string(), 1, Some(Val::Num(3)))]
    );
}

#[test]
fn requirement_models_instantiate_models_from_state_instances() {
    let mut data = system_with(moving_model(2, 1.0));
    data.models.insert("R".to_string(), requirement_model());
    data.csts.insert("S".to_string(), hand_state());
    let state: aera::types::runtime::SystemState<Val> = aera::types::runtime::SystemState::new();
    let none = compute_instantiate_casual_models(
        &state, &data, &val_eq, &val_as_vec, &val_make_vec, &val_arith, &val_same, &val_same, &entity_id_of,
    );
    assert!(none.is_empty());

    let mut bindings = aera::str_map::StrMap::new();
    bindings.insert("c".to_string(), Val::Id("h1".to_string()));
    bindings.insert("p".to_string(), Val::Num(3));
    let mut state: aera::types::runtime::SystemState<Val> = aera::types::runtime::SystemState::new();
    state.instansiated_csts.insert("S".to_string(), vec![BoundCst { bindings, cst: hand_state() }]);
    let found = compute_instantiate_casual_models(
        &state, &data, &val_eq, &val_as_vec, &val_make_vec, &val_arith, &val_same, &val_same, &entity_id_of,
    );
    assert_eq!(found.len(), 1);
    assert_eq!(found[0].model_id, "M");
    assert!(matches!(&found[0].params[0], PatternItem::Value(Val::Id(id)) if id == "h1"));
    assert!(matches!(&found[0].params[2], PatternItem::Value(Val::Num(3))));
}
