use aera::runtime::simulation::forward::compute_merged_forward_backward_models;
use aera::str_map::StrMap;
use aera::types::cst::{BoundCst, Cst, ICst};
use aera::types::functions::{ArithOp, Function};
use aera::types::instances::AbductionResult;
use aera::types::models::{BoundModel, IMdl, Mdl, MdlLeftValue, MdlRightValue};
use aera::types::pattern::PatternItem;
use aera::types::runtime::{System, SystemState};
use aera::types::{Command, EntityDeclaration, EntityPatternValue, Fact, MkVal, TimePatternRange};

#[derive(Clone, Debug, PartialEq)]
enum Val {
    Num(i64),
    List(Vec<Val>),
}

fn val_eq(a: &Val, b: &Val) -> bool {
    a == b
}

fn val_as_vec(v: &Val) -> Option<Vec<Val>> {
    match v {
        Val::List(items) => Some(items.clone()),
        Val::Num(_) => None,
    }
}

fn val_make_vec(items: Vec<Val>) -> Val {
    Val::List(items)
}

fn val_arith(op: ArithOp, a: Val, b: Val) -> Option<Val> {
    match (a, b) {
        (Val::Num(x), Val::Num(y)) => match op {
            ArithOp::Add => Some(Val::Num(x + y)),
            ArithOp::Sub => Some(Val::Num(x - y)),
            ArithOp::Mul => Some(Val::Num(x * y)),
            ArithOp::Div => if y == 0 { None } else { Some(Val::Num(x / y)) },
        },
        _ => None,
    }
}

fn val_same(v: Val) -> Option<Val> {
    Some(v)
}

fn val_id(v: &Val) -> Option<String> {
    match v {
        Val::Num(n) => Some(format!("entity_{n}")),
        Val::List(_) => None,
    }
}

fn bind(name: &str) -> PatternItem<Val> {
    PatternItem::Binding(name.to_string())
}

fn num(n: i64) -> PatternItem<Val> {
    PatternItem::Value(Val::Num(n))
}

fn value_of(name: &str) -> Box<Function<Val>> {
    Box::new(Function::Value(bind(name)))
}

fn get(map: &StrMap<Val>, key: &str) -> Option<Val> {
    map.get(&key.to_string()).cloned()
}

/// `move(c, d)` puts entity `c` at `np = p + d`; backwards, `p = np - d`.
fn moving_model() -> Mdl<Val, f64> {
    Mdl {
        model_id: "M".to_string(),
        left: Fact::new(
            MdlLeftValue::Command(Command {
                name: "move".to_string(),
                entity_id: EntityPatternValue::Binding("c".to_string()),
                params: vec![bind("d")],
            }),
            TimePatternRange::wildcard(),
        ),
        right: Fact::new(
            MdlRightValue::MkVal(MkVal {
                entity_id: EntityPatternValue::Binding("c".to_string()),
                var_name: "pos".to_string(),
                value: bind("np"),
                assumption: false,
            }),
            TimePatternRange::wildcard(),
        ),
        confidence: 1.0,
        success_count: 0,
        forward_computed: vec![("np".to_string(), Function::Add(value_of("p"), value_of("d")))],
        backward_computed: vec![("p".to_string(), Function::Sub(value_of("np"), value_of("d")))],
    }
}

fn bound_moving_model() -> BoundModel<Val, f64> {
    let mut bindings: StrMap<Val> = StrMap::new();
    bindings.insert("p".to_string(), Val::Num(10));
    bindings.insert("c".to_string(), Val::Num(1));
    BoundModel { bindings, model: moving_model() }
}

fn move_command(name: &str, step: i64) -> Fact<MdlLeftValue<Val>> {
    Fact::new(
        MdlLeftValue::Command(Command {
            name: name.to_string(),
            entity_id: EntityPatternValue::EntityId("entity_1".to_string()),
            params: vec![num(step)],
        }),
        TimePatternRange::wildcard(),
    )
}

#[test]
fn instantiating_a_bound_model() {
    let bm = bound_moving_model();
    let imdl = bm.imdl_for_model();
    assert_eq!(imdl.model_id, "M");
    assert_eq!(imdl.params, vec![num(1), PatternItem::Any, num(10)]);
    assert_eq!(imdl.fwd_guard_bindings.len(), 0);
}

#[test]
fn computing_forward_and_backward_bindings() {
    let mut bm = bound_moving_model();
    bm.compute_forward_bindings(&val_make_vec, &val_arith, &val_same, &val_same);
    assert_eq!(get(&bm.bindings, "np"), None);
    bm.bindings.insert("d".to_string(), Val::Num(3));
    bm.compute_forward_bindings(&val_make_vec, &val_arith, &val_same, &val_same);
    assert_eq!(get(&bm.bindings, "np"), Some(Val::Num(13)));

    let mut back = BoundModel { bindings: StrMap::new(), model: moving_model() };
    back.bindings.insert("np".to_string(), Val::Num(20));
    back.bindings.insert("d".to_string(), Val::Num(5));
    back.compute_backward_bindings(&val_make_vec, &val_arith, &val_same, &val_same);
    assert_eq!(get(&back.bindings, "p"), Some(Val::Num(15)));
}

#[test]
fn filling_in_both_sides() {
    let mut bm = bound_moving_model();
    bm.bindings.insert("np".to_string(), Val::Num(4));
    match bm.filled_in_lhs(val_id) {
        MdlLeftValue::Command(c) => {
            assert_eq!(c.entity_id, EntityPatternValue::EntityId("entity_1".to_string()));
            assert_eq!(c.params, vec![bind("d")]);
        }
        _ => panic!("the side changed its kind"),
    }
    match bm.filled_in_rhs(val_id) {
        MdlRightValue::MkVal(m) => {
            assert_eq!(m.entity_id, EntityPatternValue::EntityId("entity_1".to_string()));
            assert_eq!(m.value, num(4));
        }
        _ => panic!("the side changed its kind"),
    }
}

#[test]
fn extending_bindings_with_an_input() {
    let bm = bound_moving_model();
    let extended = bm
        .extend_bindings_with_lhs_input(&move_command("move", 3), &val_eq, &val_as_vec, &val_make_vec, &val_arith, &val_same, &val_same)
        .expect("the command matches");
    assert_eq!(get(&extended.bindings, "d"), Some(Val::Num(3)));
    assert_eq!(get(&extended.bindings, "p"), Some(Val::Num(10)));
    assert_eq!(get(&extended.bindings, "np"), Some(Val::Num(13)));
    assert_eq!(extended.model.model_id, "M");
    let imdl = extended.imdl_for_model();
    assert_eq!(imdl.params, vec![num(1), num(3), num(10)]);
    assert_eq!(get(&imdl.fwd_guard_bindings, "np"), Some(Val::Num(13)));

    let other = bm.extend_bindings_with_lhs_input(&move_command("jump", 3), &val_eq, &val_as_vec, &val_make_vec, &val_arith, &val_same, &val_same);
    assert!(other.is_none());
}

#[test]
fn deducing_a_prediction() {
    let bm = bound_moving_model();
    let no_anti: Vec<&IMdl<Val>> = Vec::new();
    let predicted = bm
        .deduce(&move_command("move", 3), &no_anti, &val_eq, &val_as_vec, &val_make_vec, &val_arith, &val_same, &val_same, val_id)
        .expect("the command matches");
    match predicted.pattern {
        MdlRightValue::MkVal(m) => {
            assert_eq!(m.entity_id, EntityPatternValue::EntityId("entity_1".to_string()));
            assert_eq!(m.var_name, "pos");
            assert_eq!(m.value, num(13));
        }
        _ => panic!("the side changed its kind"),
    }
    let unmatched = bm.deduce(&move_command("jump", 3), &no_anti, &val_eq, &val_as_vec, &val_make_vec, &val_arith, &val_same, &val_same, val_id);
    assert!(unmatched.is_none());
}

#[test]
fn anti_requirements_block_a_prediction() {
    let bm = bound_moving_model();
    let anti = IMdl::new("M".to_string(), vec![PatternItem::Any, num(3), PatternItem::Any]);
    let blocking = vec![&anti];
    let blocked = bm.deduce(&move_command("move", 3), &blocking, &val_eq, &val_as_vec, &val_make_vec, &val_arith, &val_same, &val_same, val_id);
    assert!(blocked.is_none());
    let other_step = IMdl::new("M".to_string(), vec![PatternItem::Any, num(4), PatternItem::Any]);
    let not_blocking = vec![&other_step];
    let kept = bm.deduce(&move_command("move", 3), &not_blocking, &val_eq, &val_as_vec, &val_make_vec, &val_arith, &val_same, &val_same, val_id);
    assert!(kept.is_some());
}

fn models_with(model: Mdl<Val, f64>) -> System<Val, f64> {
    let mut system: System<Val, f64> = System::new();
    let id = model.model_id.clone();
    system.models.insert(id, model);
    system
}

fn mk(entity: EntityPatternValue, var: &str, value: PatternItem<Val>) -> MkVal<Val> {
    MkVal { entity_id: entity, var_name: var.to_string(), value, assumption: false }
}

fn ent(name: &str) -> EntityPatternValue {
    EntityPatternValue::Binding(name.to_string())
}

fn plain_model(id: &str, left: MdlLeftValue<Val>, right: MdlRightValue<Val>) -> Mdl<Val, f64> {
    Mdl {
        model_id: id.to_string(),
        left: Fact::new(left, TimePatternRange::wildcard()),
        right: Fact::new(right, TimePatternRange::wildcard()),
        confidence: 1.0,
        success_count: 0,
        forward_computed: Vec::new(),
        backward_computed: Vec::new(),
    }
}

#[test]
fn a_model_unbound() {
    let bm = moving_model().as_bound_model();
    assert_eq!(bm.bindings.len(), 0);
    assert_eq!(bm.model.model_id, "M");
    assert_eq!(bm.model.forward_computed.len(), 1);
}

#[test]
fn instantiating_a_model_by_id() {
    let models = models_with(moving_model());
    let imdl = IMdl::new("M".to_string(), vec![num(1), bind("x"), num(10)]);
    assert_eq!(imdl.get_model(&models).model_id, "M");
    let mut bindings: StrMap<Val> = StrMap::new();
    bindings.insert("x".to_string(), Val::Num(3));
    let mapped = imdl.map_bindings_to_model(&bindings, &models, &val_make_vec);
    assert_eq!(get(&mapped, "c"), Some(Val::Num(1)));
    assert_eq!(get(&mapped, "d"), Some(Val::Num(3)));
    assert_eq!(get(&mapped, "p"), Some(Val::Num(10)));
    assert_eq!(mapped.len(), 3);

    let unbound = imdl.map_bindings_to_model(&StrMap::new(), &models, &val_make_vec);
    assert_eq!(get(&unbound, "d"), None);
    assert_eq!(unbound.len(), 2);

    let bound = imdl.instantiate(&bindings, &models, &val_make_vec, &val_arith, &val_same, &val_same);
    assert_eq!(bound.model.model_id, "M");
    assert_eq!(get(&bound.bindings, "np"), Some(Val::Num(13)));
}

#[test]
fn guard_values_override_the_instantiation() {
    let models = models_with(moving_model());
    let mut guards: StrMap<Val> = StrMap::new();
    guards.insert("p".to_string(), Val::Num(20));
    let imdl = IMdl::with_fwd_guards("M".to_string(), vec![num(1), num(2), num(10)], guards);
    let bound = imdl.instantiate(&StrMap::new(), &models, &val_make_vec, &val_arith, &val_same, &val_same);
    assert_eq!(get(&bound.bindings, "p"), Some(Val::Num(20)));
    assert_eq!(get(&bound.bindings, "np"), Some(Val::Num(22)));
}

#[test]
fn binding_backwards_from_an_instantiation() {
    let mut model = plain_model(
        "R",
        MdlLeftValue::ICst(ICst { cst_id: "S".to_string(), params: vec![bind("a")] }),
        MdlRightValue::IMdl(IMdl::new("M".to_string(), vec![bind("a"), bind("b")])),
    );
    model.backward_computed = vec![("c".to_string(), Function::Add(value_of("a"), value_of("b")))];
    let target = IMdl::new("M".to_string(), vec![num(2), num(5)]);
    let bound = model.backward_chain_known_bindings_from_imdl(
        &target, &val_as_vec, &val_make_vec, &val_arith, &val_same, &val_same,
    );
    assert_eq!(get(&bound.bindings, "a"), Some(Val::Num(2)));
    assert_eq!(get(&bound.bindings, "b"), Some(Val::Num(5)));
    assert_eq!(get(&bound.bindings, "c"), Some(Val::Num(7)));
    assert_eq!(bound.model.model_id, "R");
}

fn state_s() -> Cst<Val> {
    Cst {
        cst_id: "S".to_string(),
        facts: vec![Fact::new(mk(ent("o"), "pos", bind("v")), TimePatternRange::wildcard())],
        entities: vec![EntityDeclaration::new("o", "obj")],
    }
}

#[test]
fn instantiating_from_composite_state_instances() {
    let model = plain_model(
        "P",
        MdlLeftValue::ICst(ICst { cst_id: "S".to_string(), params: vec![bind("t"), bind("x")] }),
        MdlRightValue::MkVal(mk(ent("t"), "seen", bind("x"))),
    );
    let instance = |o: i64, v: i64| {
        let mut bindings: StrMap<Val> = StrMap::new();
        bindings.insert("o".to_string(), Val::Num(o));
        bindings.insert("v".to_string(), Val::Num(v));
        BoundCst { bindings, cst: state_s() }
    };
    let mut instantiated: SystemState<Val> = SystemState::new();
    instantiated.instansiated_csts.insert("S".to_string(), vec![instance(1, 4), instance(2, 6)]);
    let bound = model.try_instantiate_with_icst(
        &instantiated, &val_eq, &val_as_vec, &val_make_vec, &val_arith, &val_same, &val_same,
    );
    assert_eq!(bound.len(), 2);
    assert_eq!(get(&bound[0].bindings, "t"), Some(Val::Num(1)));
    assert_eq!(get(&bound[0].bindings, "x"), Some(Val::Num(4)));
    assert_eq!(get(&bound[1].bindings, "x"), Some(Val::Num(6)));

    let picky = plain_model(
        "P",
        MdlLeftValue::ICst(ICst { cst_id: "S".to_string(), params: vec![bind("t"), num(6)] }),
        MdlRightValue::MkVal(mk(ent("t"), "seen", num(6))),
    );
    let only = picky.try_instantiate_with_icst(
        &instantiated, &val_eq, &val_as_vec, &val_make_vec, &val_arith, &val_same, &val_same,
    );
    assert_eq!(only.len(), 1);
    assert_eq!(get(&only[0].bindings, "t"), Some(Val::Num(2)));

    let none_held: SystemState<Val> = SystemState::new();
    assert!(model
        .try_instantiate_with_icst(&none_held, &val_eq, &val_as_vec, &val_make_vec, &val_arith, &val_same, &val_same)
        .is_empty());
    assert!(moving_model()
        .try_instantiate_with_icst(&instantiated, &val_eq, &val_as_vec, &val_make_vec, &val_arith, &val_same, &val_same)
        .is_empty());
}

fn position_fact(entity: &str, value: i64) -> Fact<MdlRightValue<Val>> {
    Fact::new(
        MdlRightValue::MkVal(mk(EntityPatternValue::EntityId(entity.to_string()), "pos", num(value))),
        TimePatternRange::wildcard(),
    )
}

#[test]
fn abducing_through_a_command_model() {
    let bm = BoundModel { bindings: StrMap::new(), model: moving_model() };
    let no_csts: System<Val, f64> = System::new();
    let goal = position_fact("entity_1", 13);
    let result = bm
        .abduce(&goal, &no_csts, &val_eq, &val_as_vec, &val_make_vec, &val_arith, &val_same, &val_same, val_id)
        .expect("the goal matches the right-hand side");
    match result {
        AbductionResult::IMdl(imdl) => {
            assert_eq!(imdl.model_id, "M");
            assert_eq!(imdl.params, vec![PatternItem::Any, PatternItem::Any, PatternItem::Any]);
        }
        _ => panic!("a command model abduces its instantiation"),
    }
    let other_var = Fact::new(
        MdlRightValue::MkVal(mk(EntityPatternValue::EntityId("entity_1".to_string()), "color", num(13))),
        TimePatternRange::wildcard(),
    );
    assert!(bm
        .abduce(&other_var, &no_csts, &val_eq, &val_as_vec, &val_make_vec, &val_arith, &val_same, &val_same, val_id)
        .is_none());
}

#[test]
fn abducing_computes_backward_bindings() {
    let mut bindings: StrMap<Val> = StrMap::new();
    bindings.insert("d".to_string(), Val::Num(3));
    let bm = BoundModel { bindings, model: moving_model() };
    let no_csts: System<Val, f64> = System::new();
    let result = bm
        .abduce(&position_fact("entity_1", 13), &no_csts, &val_eq, &val_as_vec, &val_make_vec, &val_arith, &val_same, &val_same, val_id)
        .expect("the goal matches");
    match result {
        AbductionResult::IMdl(imdl) => {
            assert_eq!(imdl.params, vec![PatternItem::Any, num(3), num(10)]);
            assert_eq!(get(&imdl.fwd_guard_bindings, "np"), Some(Val::Num(13)));
        }
        _ => panic!("a command model abduces its instantiation"),
    }
}

#[test]
fn abducing_a_composite_state_sub_goal() {
    let model = plain_model(
        "P",
        MdlLeftValue::ICst(ICst { cst_id: "S".to_string(), params: vec![bind("t"), bind("x")] }),
        MdlRightValue::MkVal(mk(ent("t"), "seen", bind("x"))),
    );
    let bm = BoundModel { bindings: StrMap::new(), model };
    let mut csts: System<Val, f64> = System::new();
    csts.csts.insert("S".to_string(), state_s());
    let goal = Fact::new(
        MdlRightValue::MkVal(mk(EntityPatternValue::EntityId("entity_2".to_string()), "seen", num(5))),
        TimePatternRange::wildcard(),
    );
    let result = bm
        .abduce(&goal, &csts, &val_eq, &val_as_vec, &val_make_vec, &val_arith, &val_same, &val_same, val_id)
        .expect("the goal matches");
    match result {
        AbductionResult::SubGoal(facts, Some(id), imdl, Some(icst)) => {
            assert_eq!(id, "S");
            assert_eq!(icst.params, vec![bind("t"), num(5)]);
            assert_eq!(facts.len(), 1);
            assert_eq!(facts[0].pattern.entity_id, ent("t"));
            assert_eq!(facts[0].pattern.var_name, "pos");
            assert_eq!(facts[0].pattern.value, num(5));
            assert_eq!(imdl.model_id, "P");
            assert_eq!(imdl.params, vec![PatternItem::Any, num(5)]);
        }
        _ => panic!("a composite state model abduces a sub-goal"),
    }
}

#[test]
fn abducing_a_variable_sub_goal() {
    let model = plain_model(
        "Q",
        MdlLeftValue::MkVal(mk(ent("t"), "pos", bind("x"))),
        MdlRightValue::MkVal(mk(ent("t"), "seen", bind("x"))),
    );
    let mut bindings: StrMap<Val> = StrMap::new();
    bindings.insert("t".to_string(), Val::Num(7));
    let bm = BoundModel { bindings, model };
    let no_csts: System<Val, f64> = System::new();
    let goal = Fact::new(
        MdlRightValue::MkVal(mk(EntityPatternValue::EntityId("entity_7".to_string()), "seen", num(2))),
        TimePatternRange::wildcard(),
    );
    let result = bm
        .abduce(&goal, &no_csts, &val_eq, &val_as_vec, &val_make_vec, &val_arith, &val_same, &val_same, val_id)
        .expect("the goal matches");
    match result {
        AbductionResult::SubGoal(facts, None, imdl, None) => {
            assert_eq!(facts.len(), 1);
            assert_eq!(facts[0].pattern.entity_id, EntityPatternValue::EntityId("entity_7".to_string()));
            assert_eq!(facts[0].pattern.value, num(2));
            assert_eq!(imdl.model_id, "Q");
        }
        _ => panic!("a variable model abduces that variable"),
    }
}

#[test]
fn reusing_an_instantiated_model() {
    let reuse = plain_model(
        "U",
        MdlLeftValue::IMdl(IMdl::new("M".to_string(), vec![bind("c"), bind("d"), PatternItem::Any])),
        MdlRightValue::MkVal(mk(ent("c"), "moved", bind("d"))),
    );
    let bm = BoundModel { bindings: StrMap::new(), model: reuse };
    let models = models_with(moving_model());
    let extended = bound_moving_model()
        .extend_bindings_with_lhs_input(&move_command("move", 3), &val_eq, &val_as_vec, &val_make_vec, &val_arith, &val_same, &val_same)
        .expect("the command matches");
    let list = vec![extended];
    let reused = bm
        .get_reused_model(&list, &models, &val_eq, &val_as_vec, &val_make_vec, &val_arith, &val_same, &val_same)
        .expect("the instantiation matches");
    assert_eq!(reused.model.model_id, "M");
    assert_eq!(get(&reused.bindings, "c"), Some(Val::Num(1)));
    assert_eq!(get(&reused.bindings, "d"), Some(Val::Num(3)));
    assert_eq!(get(&reused.bindings, "np"), Some(Val::Num(13)));

    let empty: Vec<BoundModel<Val, f64>> = Vec::new();
    assert!(bm
        .get_reused_model(&empty, &models, &val_eq, &val_as_vec, &val_make_vec, &val_arith, &val_same, &val_same)
        .is_none());
    assert!(bound_moving_model()
        .get_reused_model(&list, &models, &val_eq, &val_as_vec, &val_make_vec, &val_arith, &val_same, &val_same)
        .is_none());
}

#[test]
fn the_command_a_causal_model_executes() {
    let models = models_with(moving_model());
    let extended = bound_moving_model()
        .extend_bindings_with_lhs_input(&move_command("move", 3), &val_eq, &val_as_vec, &val_make_vec, &val_arith, &val_same, &val_same)
        .expect("the command matches");
    let own = extended
        .get_casual_model_command(&Vec::new(), &models, &val_eq, &val_as_vec, &val_make_vec, &val_arith, &val_same, &val_same, &val_id)
        .expect("a command model executes its command");
    assert_eq!(own.name, "move");
    assert_eq!(own.entity_id, EntityPatternValue::EntityId("entity_1".to_string()));
    assert_eq!(own.params, vec![num(3)]);

    let reuse = plain_model(
        "U",
        MdlLeftValue::IMdl(IMdl::new("M".to_string(), vec![bind("c"), bind("d"), PatternItem::Any])),
        MdlRightValue::MkVal(mk(ent("c"), "moved", bind("d"))),
    );
    let bm = BoundModel { bindings: StrMap::new(), model: reuse };
    let list = vec![extended];
    let reused = bm
        .get_casual_model_command(&list, &models, &val_eq, &val_as_vec, &val_make_vec, &val_arith, &val_same, &val_same, &val_id)
        .expect("the reused model executes a command");
    assert_eq!(reused.name, "move");
    assert_eq!(reused.entity_id, EntityPatternValue::EntityId("entity_1".to_string()));
    assert_eq!(reused.params, vec![num(3)]);
    assert!(bm
        .get_casual_model_command(&Vec::new(), &models, &val_eq, &val_as_vec, &val_make_vec, &val_arith, &val_same, &val_same, &val_id)
        .is_none());

    let req = plain_model(
        "R",
        MdlLeftValue::ICst(ICst { cst_id: "S".to_string(), params: vec![bind("a")] }),
        MdlRightValue::IMdl(IMdl::new("M".to_string(), vec![bind("a")])),
    );
    let req_bm = BoundModel { bindings: StrMap::new(), model: req };
    assert!(req_bm
        .get_casual_model_command(&list, &models, &val_eq, &val_as_vec, &val_make_vec, &val_arith, &val_same, &val_same, &val_id)
        .is_none());
}

fn id_from_val(v: &Val) -> String {
    match v {
        Val::Num(n) => format!("entity_{n}"),
        Val::List(_) => "list".to_string(),
    }
}

fn val_from_id(id: &String) -> Val {
    Val::Num(id.trim_start_matches("entity_").parse().unwrap_or(-1))
}

#[test]
fn predicting_a_state_change() {
    let mut system = models_with(moving_model());
    system.create_entity("entity_1", "thing");
    system.csts.insert(
        "AT13".to_string(),
        Cst {
            cst_id: "AT13".to_string(),
            facts: vec![Fact::new(mk(ent("o"), "pos", num(13)), TimePatternRange::wildcard())],
            entities: vec![EntityDeclaration::new("o", "thing")],
        },
    );
    let mut state: SystemState<Val> = SystemState::new();
    state.variables.insert(("entity_1".to_string(), "pos".to_string()), Val::Num(10));
    state.variables.insert(("entity_5".to_string(), "color".to_string()), Val::Num(7));
    let bm = bound_moving_model()
        .extend_bindings_with_lhs_input(&move_command("move", 3), &val_eq, &val_as_vec, &val_make_vec, &val_arith, &val_same, &val_same)
        .expect("the command matches");
    let watcher = plain_model(
        "W",
        MdlLeftValue::Command(Command { name: "move".to_string(), entity_id: ent("c"), params: vec![bind("d")] }),
        MdlRightValue::MkVal(mk(EntityPatternValue::EntityId("entity_9".to_string()), "moved", bind("d"))),
    );
    let list = vec![BoundModel { bindings: StrMap::new(), model: watcher }];
    let no_anti: Vec<&IMdl<Val>> = Vec::new();
    let next = bm
        .predict_state_change(&state, &no_anti, &list, &system, &val_eq, &val_as_vec, &val_make_vec, &val_arith, &val_same, &val_same, &val_id, &id_from_val, &val_from_id)
        .expect("a value is predicted");
    assert_eq!(next.variables.get(&("entity_1".to_string(), "pos".to_string())), Some(&Val::Num(13)));
    assert_eq!(next.variables.get(&("entity_9".to_string(), "moved".to_string())), Some(&Val::Num(3)));
    assert_eq!(next.variables.get(&("entity_5".to_string(), "color".to_string())), Some(&Val::Num(7)));
    assert_eq!(next.variables.len(), 3);
    assert_eq!(next.time, state.time);
    assert_eq!(next.instansiated_csts.get(&"AT13".to_string()).map(|v| v.len()), Some(1));
    assert_eq!(state.variables.get(&("entity_1".to_string(), "pos".to_string())), Some(&Val::Num(10)));

    let anti = IMdl::new("M".to_string(), vec![PatternItem::Any, num(3), PatternItem::Any]);
    let forbidding = vec![&anti];
    assert!(bm
        .predict_state_change(&state, &forbidding, &list, &system, &val_eq, &val_as_vec, &val_make_vec, &val_arith, &val_same, &val_same, &val_id, &id_from_val, &val_from_id)
        .is_none());

    let unknown_step = bound_moving_model();
    assert!(unknown_step
        .predict_state_change(&state, &no_anti, &list, &system, &val_eq, &val_as_vec, &val_make_vec, &val_arith, &val_same, &val_same, &val_id, &id_from_val, &val_from_id)
        .is_none());
}

#[test]
fn predicting_through_a_reused_model() {
    let system = models_with(moving_model());
    let mut state: SystemState<Val> = SystemState::new();
    state.variables.insert(("entity_1".to_string(), "pos".to_string()), Val::Num(10));
    let extended = bound_moving_model()
        .extend_bindings_with_lhs_input(&move_command("move", 3), &val_eq, &val_as_vec, &val_make_vec, &val_arith, &val_same, &val_same)
        .expect("the command matches");
    let list = vec![extended];
    let reuse = plain_model(
        "U",
        MdlLeftValue::IMdl(IMdl::new("M".to_string(), vec![bind("c"), bind("d"), PatternItem::Any])),
        MdlRightValue::MkVal(mk(ent("c"), "moved", bind("d"))),
    );
    let bm = BoundModel { bindings: StrMap::new(), model: reuse };
    let no_anti: Vec<&IMdl<Val>> = Vec::new();
    let next = bm
        .predict_state_change(&state, &no_anti, &list, &system, &val_eq, &val_as_vec, &val_make_vec, &val_arith, &val_same, &val_same, &val_id, &id_from_val, &val_from_id)
        .expect("the reused model predicts");
    assert_eq!(next.variables.get(&("entity_1".to_string(), "pos".to_string())), Some(&Val::Num(13)));
    assert_eq!(next.variables.len(), 1);
    let nothing_to_reuse: Vec<BoundModel<Val, f64>> = Vec::new();
    assert!(bm
        .predict_state_change(&state, &no_anti, &nothing_to_reuse, &system, &val_eq, &val_as_vec, &val_make_vec, &val_arith, &val_same, &val_same, &val_id, &id_from_val, &val_from_id)
        .is_none());
}

#[test]
fn merging_forward_and_backward_chained_models() {
    let system = models_with(moving_model());
    let fwd = vec![
        (IMdl::new("M".to_string(), vec![num(1), PatternItem::Any, num(10)]), false),
        (IMdl::new("M".to_string(), vec![num(2), PatternItem::Any, num(10)]), true),
    ];
    let goals = vec![
        IMdl::new("M".to_string(), vec![PatternItem::Any, num(3), PatternItem::Any]),
        IMdl::new("X".to_string(), vec![PatternItem::Any]),
    ];
    let (instantiable, merged) = compute_merged_forward_backward_models(
        &fwd, &goals, &system, &val_eq, &val_as_vec, &val_make_vec, &val_arith, &val_same, &val_same,
    );
    assert_eq!(instantiable.len(), 1);
    assert_eq!(get(&instantiable[0].bindings, "c"), Some(Val::Num(1)));
    assert_eq!(get(&instantiable[0].bindings, "d"), None);
    assert_eq!(get(&instantiable[0].bindings, "np"), None);
    assert_eq!(merged.len(), 1);
    assert_eq!(merged[0].model.model_id, "M");
    assert_eq!(get(&merged[0].bindings, "d"), Some(Val::Num(3)));
    assert_eq!(get(&merged[0].bindings, "p"), Some(Val::Num(10)));
    assert_eq!(get(&merged[0].bindings, "np"), Some(Val::Num(13)));
}
