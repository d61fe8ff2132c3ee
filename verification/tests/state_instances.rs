use aera::runtime::utils::{
    all_assumption_models, all_causal_models, all_req_models, all_state_prediction_models,
    compute_assumptions, compute_instantiated_states, compute_state_predictions,
};
use aera::types::functions::ArithOp;
use aera::str_map::StrMap;
use aera::types::cst::{BoundCst, Cst, ICst};
use aera::types::models::{IMdl, Mdl, MdlLeftValue, MdlRightValue};
use aera::types::pattern::PatternItem;
use aera::types::runtime::{System, SystemState};
use aera::types::{Command, EntityDeclaration, EntityPatternValue, Fact, MkVal, TimePatternRange};

#[derive(Clone, Debug, PartialEq)]
enum Val {
    Num(i64),
    Id(String),
    List(Vec<Val>),
}

fn val_eq(a: &Val, b: &Val) -> bool {
    a == b
}

fn val_as_vec(v: &Val) -> Option<Vec<Val>> {
    match v {
        Val::List(items) => Some(items.clone()),
        _ => None,
    }
}

fn entity_value(id: &String) -> Val {
    Val::Id(id.clone())
}

fn id_of(v: &Val) -> String {
    match v {
        Val::Id(id) => id.clone(),
        Val::Num(n) => format!("{n}"),
        Val::List(_) => "list".to_string(),
    }
}

fn bind(name: &str) -> PatternItem<Val> {
    PatternItem::Binding(name.to_string())
}

fn num(n: i64) -> PatternItem<Val> {
    PatternItem::Value(Val::Num(n))
}

fn get(map: &StrMap<Val>, key: &str) -> Option<Val> {
    map.get(&key.to_string()).cloned()
}

fn id(s: &str) -> Val {
    Val::Id(s.to_string())
}

fn classes() -> System<Val, f64> {
    let mut system: System<Val, f64> = System::new();
    system.create_entity("b1", "ball");
    system.create_entity("b2", "ball");
    system.create_entity("x1", "box");
    system.create_entity("x2", "box");
    system
}

fn fact(entity: &str, var: &str, value: PatternItem<Val>) -> Fact<MkVal<Val>> {
    Fact::new(
        MkVal {
            entity_id: EntityPatternValue::Binding(entity.to_string()),
            var_name: var.to_string(),
            value,
            assumption: false,
        },
        TimePatternRange::wildcard(),
    )
}

fn ball_in_box() -> Cst<Val> {
    Cst {
        cst_id: "S".to_string(),
        facts: vec![fact("a", "pos", bind("p")), fact("b", "pos", bind("p"))],
        entities: vec![EntityDeclaration::new("a", "ball"), EntityDeclaration::new("b", "box")],
    }
}

fn variables(entries: &[(&str, &str, i64)]) -> SystemState<Val> {
    let mut state: SystemState<Val> = SystemState::new();
    for (e, v, n) in entries {
        state.variables.insert((e.to_string(), v.to_string()), Val::Num(*n));
    }
    state
}

#[test]
fn choosing_entities_of_each_class() {
    let maps = ball_in_box().all_possible_entity_bindings(&classes(), &entity_value);
    assert_eq!(maps.len(), 4);
    let pairs: Vec<(Option<Val>, Option<Val>)> = maps.iter().map(|m| (get(m, "a"), get(m, "b"))).collect();
    assert_eq!(
        pairs,
        vec![
            (Some(id("b1")), Some(id("x1"))),
            (Some(id("b1")), Some(id("x2"))),
            (Some(id("b2")), Some(id("x1"))),
            (Some(id("b2")), Some(id("x2"))),
        ]
    );
}

#[test]
fn unknown_classes_are_left_out_and_empty_classes_give_nothing() {
    let lonely = Cst {
        cst_id: "L".to_string(),
        facts: Vec::new(),
        entities: vec![EntityDeclaration::new("a", "ball"), EntityDeclaration::new("g", "ghost")],
    };
    let maps = lonely.all_possible_entity_bindings(&classes(), &entity_value);
    assert_eq!(maps.len(), 2);
    assert_eq!(get(&maps[1], "a"), Some(id("b2")));
    assert_eq!(get(&maps[1], "g"), None);

    let none_declared: Cst<Val> = Cst { cst_id: "N".to_string(), facts: Vec::new(), entities: Vec::new() };
    let maps = none_declared.all_possible_entity_bindings(&classes(), &entity_value);
    assert_eq!(maps.len(), 1);
    assert_eq!(maps[0].len(), 0);

    let mut empty_class = classes();
    empty_class.entities_in_classes.insert("box".to_string(), Vec::new());
    assert!(ball_in_box().all_possible_entity_bindings(&empty_class, &entity_value).is_empty());
}

#[test]
fn instances_where_every_fact_holds() {
    let vars = variables(&[("b1", "pos", 3), ("b2", "pos", 5), ("x1", "pos", 5), ("x2", "pos", 3)]);
    let found = BoundCst::try_instantiate_from_state(
        &ball_in_box(), &vars, &classes(), &entity_value, &id_of, &val_eq, &val_as_vec,
    );
    assert_eq!(found.len(), 2);
    assert_eq!(get(&found[0].bindings, "a"), Some(id("b1")));
    assert_eq!(get(&found[0].bindings, "b"), Some(id("x2")));
    assert_eq!(get(&found[0].bindings, "p"), Some(Val::Num(3)));
    assert_eq!(get(&found[1].bindings, "a"), Some(id("b2")));
    assert_eq!(get(&found[1].bindings, "b"), Some(id("x1")));
    assert_eq!(get(&found[1].bindings, "p"), Some(Val::Num(5)));
    assert_eq!(found[1].cst.cst_id, "S");
}

#[test]
fn a_missing_variable_rules_an_instance_out() {
    let vars = variables(&[("b1", "pos", 3), ("x2", "pos", 3)]);
    let found = BoundCst::try_instantiate_from_state(
        &ball_in_box(), &vars, &classes(), &entity_value, &id_of, &val_eq, &val_as_vec,
    );
    assert_eq!(found.len(), 1);
    assert_eq!(get(&found[0].bindings, "b"), Some(id("x2")));
    let nothing = variables(&[]);
    assert!(BoundCst::try_instantiate_from_state(
        &ball_in_box(), &nothing, &classes(), &entity_value, &id_of, &val_eq, &val_as_vec,
    )
    .is_empty());
}

#[test]
fn instances_of_every_composite_state() {
    let mut csts = classes();
    csts.csts.insert("S".to_string(), ball_in_box());
    let ball_at_four = Cst {
        cst_id: "T".to_string(),
        facts: vec![fact("a", "pos", num(4))],
        entities: vec![EntityDeclaration::new("a", "ball")],
    };
    csts.csts.insert("T".to_string(), ball_at_four);
    let vars = variables(&[("b1", "pos", 3), ("b2", "pos", 5), ("x1", "pos", 5), ("x2", "pos", 3)]);
    let all = compute_instantiated_states(&csts, &vars, &entity_value, &id_of, &val_eq, &val_as_vec);
    assert_eq!(all.len(), 2);
    assert_eq!(all.get(&"S".to_string()).map(|v| v.len()), Some(2));
    assert_eq!(all.get(&"T".to_string()).map(|v| v.len()), Some(0));
}

fn model(id: &str, left: MdlLeftValue<Val>, right: MdlRightValue<Val>) -> Mdl<Val, f64> {
    Mdl {
        model_id: id.to_string(),
        left: Fact::new(left, TimePatternRange::wildcard()),
        right: Fact::new(right, TimePatternRange::wildcard()),
        confidence: 0.5,
        success_count: 0,
        forward_computed: Vec::new(),
        backward_computed: Vec::new(),
    }
}

fn variable(assumption: bool) -> MdlRightValue<Val> {
    MdlRightValue::MkVal(MkVal {
        entity_id: EntityPatternValue::Binding("a".to_string()),
        var_name: "pos".to_string(),
        value: bind("p"),
        assumption,
    })
}

#[test]
fn models_by_kind_in_order() {
    let icst = || MdlLeftValue::ICst(ICst { cst_id: "S".to_string(), params: vec![bind("p")] });
    let command = MdlLeftValue::Command(Command {
        name: "move".to_string(),
        entity_id: EntityPatternValue::Binding("a".to_string()),
        params: vec![bind("p")],
    });
    let mut models: System<Val, f64> = System::new();
    models.models.insert("C1".to_string(), model("C1", command, variable(false)));
    models.models.insert("R1".to_string(), model("R1", icst(), MdlRightValue::IMdl(IMdl::new("C1".to_string(), vec![bind("p")]))));
    models.models.insert("A1".to_string(), model("A1", icst(), variable(true)));
    models.models.insert("P1".to_string(), model("P1", icst(), variable(false)));
    models.models.insert(
        "C2".to_string(),
        model("C2", MdlLeftValue::IMdl(IMdl::new("C1".to_string(), vec![bind("p")])), variable(false)),
    );
    let ids = |ms: Vec<Mdl<Val, f64>>| ms.into_iter().map(|m| m.model_id).collect::<Vec<String>>();
    assert_eq!(ids(all_causal_models(&models)), vec!["C1".to_string(), "C2".to_string()]);
    assert_eq!(ids(all_req_models(&models)), vec!["R1".to_string()]);
    assert_eq!(ids(all_assumption_models(&models)), vec!["A1".to_string()]);
    assert_eq!(ids(all_state_prediction_models(&models)), vec!["P1".to_string()]);
}

#[test]
fn creating_entities_by_class() {
    let mut system: System<Val, f64> = System::new();
    assert_eq!(system.entities_in_classes.len(), 0);
    system.create_entity("h", "hand");
    system.create_entity("o1", "obj");
    system.create_entity("o2", "obj");
    assert_eq!(system.entities_in_classes.len(), 2);
    assert_eq!(system.entities_in_classes.get(&"obj".to_string()), Some(&vec!["o1".to_string(), "o2".to_string()]));
    assert_eq!(system.entities_in_classes.get(&"hand".to_string()), Some(&vec!["h".to_string()]));
    assert_eq!(system.models.len(), 0);
    assert_eq!(system.current_state.variables.len(), 0);
}

fn val_make_vec(items: Vec<Val>) -> Val {
    Val::List(items)
}

fn no_arith(_op: ArithOp, _a: Val, _b: Val) -> Option<Val> {
    None
}

fn same(v: Val) -> Option<Val> {
    Some(v)
}

fn value_model(id: &str, var: &str, assumption: bool) -> Mdl<Val, f64> {
    model(
        id,
        MdlLeftValue::ICst(ICst { cst_id: "S".to_string(), params: vec![bind("e"), bind("f"), bind("v")] }),
        MdlRightValue::MkVal(MkVal {
            entity_id: EntityPatternValue::Binding("e".to_string()),
            var_name: var.to_string(),
            value: bind("v"),
            assumption,
        }),
    )
}

#[test]
fn assumptions_and_predictions_from_state_instances() {
    let mut system = classes();
    system.csts.insert("S".to_string(), ball_in_box());
    system.models.insert("A1".to_string(), value_model("A1", "seen", true));
    system.models.insert("P1".to_string(), value_model("P1", "guess", false));
    let mut state = variables(&[("b1", "pos", 3), ("b2", "pos", 5), ("x1", "pos", 5), ("x2", "pos", 3)]);
    state.instansiated_csts =
        compute_instantiated_states(&system, &state, &entity_value, &id_of, &val_eq, &val_as_vec);
    let assumed = compute_assumptions(&system, &state, &val_eq, &val_as_vec, &val_make_vec, &no_arith, &same, &same, &id_of);
    assert_eq!(assumed.len(), 2);
    assert_eq!(assumed.get(&("b1".to_string(), "seen".to_string())), Some(&Val::Num(3)));
    assert_eq!(assumed.get(&("b2".to_string(), "seen".to_string())), Some(&Val::Num(5)));
    let predicted = compute_state_predictions(&system, &state, &val_eq, &val_as_vec, &val_make_vec, &no_arith, &same, &same, &id_of);
    assert_eq!(predicted.len(), 2);
    assert_eq!(predicted.get(&("b1".to_string(), "guess".to_string())), Some(&Val::Num(3)));
    assert_eq!(predicted.get(&("b2".to_string(), "guess".to_string())), Some(&Val::Num(5)));

    let empty_state: SystemState<Val> = SystemState::new();
    assert_eq!(
        compute_assumptions(&system, &empty_state, &val_eq, &val_as_vec, &val_make_vec, &no_arith, &same, &same, &id_of).len(),
        0
    );
}
