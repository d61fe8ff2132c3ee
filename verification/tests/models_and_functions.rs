use aera::str_map::StrMap;
use aera::types::cst::ICst;
use aera::types::functions::{ArithOp, Function};
use aera::types::models::{IMdl, Mdl, MdlLeftValue, MdlRightValue};
use aera::types::pattern::PatternItem;
use aera::types::{Command, EntityPatternValue, Fact, MkVal, TimePatternRange};

fn binding(name: &str) -> PatternItem<i64> {
    PatternItem::Binding(name.to_string())
}

fn value_of(name: &str) -> Box<Function<i64>> {
    Box::new(Function::Value(binding(name)))
}

fn pos_of(entity: &str, value: PatternItem<i64>, assumption: bool) -> MkVal<i64> {
    MkVal {
        entity_id: EntityPatternValue::Binding(entity.to_string()),
        var_name: "pos".to_string(),
        value,
        assumption,
    }
}

fn model(left: MdlLeftValue<i64>, right: MdlRightValue<i64>, computed: Vec<(String, Function<i64>)>) -> Mdl<i64, f64> {
    Mdl {
        model_id: "M0".to_string(),
        left: Fact::new(left, TimePatternRange::wildcard()),
        right: Fact::new(right, TimePatternRange::wildcard()),
        confidence: 0.5,
        success_count: 0,
        forward_computed: computed,
        backward_computed: Vec::new(),
    }
}

#[test]
fn function_bindings_of_operations_and_lists() {
    let add = Function::Add(value_of("a"), value_of("a"));
    assert_eq!(add.binding_params(), vec!["a".to_string()]);
    let list = Function::List(vec![Function::Value(binding("a")), Function::Value(binding("a"))]);
    assert_eq!(list.binding_params(), vec!["a".to_string(), "a".to_string()]);
    let nested = Function::ConvertToNumber(Box::new(Function::Mul(
        value_of("x"),
        Box::new(Function::Sub(value_of("y"), value_of("x"))),
    )));
    assert_eq!(nested.binding_params(), vec!["x".to_string(), "y".to_string()]);
    let constant: Function<i64> = Function::Value(PatternItem::Value(3));
    assert!(constant.binding_params().is_empty());
}

#[test]
fn model_parameters_leave_out_computed_bindings() {
    let command = Command {
        name: "move".to_string(),
        entity_id: EntityPatternValue::Binding("CMD_E".to_string()),
        params: vec![binding("dx")],
    };
    let m = model(
        MdlLeftValue::Command(command),
        MdlRightValue::MkVal(pos_of("h", binding("np"), false)),
        vec![("np".to_string(), Function::Add(value_of("p"), value_of("dx")))],
    );
    assert_eq!(
        m.binding_param(),
        vec!["CMD_E".to_string(), "dx".to_string(), "p".to_string(), "h".to_string()]
    );
    assert_eq!(m.fwd_guard_params(), vec!["np"]);
    assert!(m.is_casual_model());
    assert!(!m.is_reuse_model());
    assert!(!m.is_req_model());
    assert!(!m.is_assumption_model());
    assert!(!m.is_state_prediction());
}

#[test]
fn model_kinds() {
    let icst = ICst { cst_id: "S0".to_string(), params: vec![binding("x")] };
    let imdl = IMdl::new("M1".to_string(), vec![binding("x")]);
    let req = model(MdlLeftValue::ICst(icst.clone()), MdlRightValue::IMdl(imdl), Vec::new());
    assert!(req.is_req_model());
    assert!(!req.is_casual_model());
    assert_eq!(req.binding_param(), vec!["x".to_string()]);

    let assumption = model(MdlLeftValue::ICst(icst.clone()), MdlRightValue::MkVal(pos_of("x", binding("p"), true)), Vec::new());
    assert!(assumption.is_assumption_model());
    assert!(!assumption.is_state_prediction());

    let prediction = model(MdlLeftValue::ICst(icst), MdlRightValue::MkVal(pos_of("x", binding("p"), false)), Vec::new());
    assert!(prediction.is_state_prediction());
    assert!(!prediction.is_assumption_model());

    let reuse = model(
        MdlLeftValue::IMdl(IMdl::new("M2".to_string(), Vec::new())),
        MdlRightValue::MkVal(pos_of("x", PatternItem::Any, false)),
        Vec::new(),
    );
    assert!(reuse.is_reuse_model());
    assert!(reuse.is_casual_model());
}

#[test]
fn instantiated_models_and_accessors() {
    let mut guards: StrMap<i64> = StrMap::new();
    guards.insert("g".to_string(), 2);
    let imdl = IMdl::with_fwd_guards("M3".to_string(), vec![PatternItem::Value(1)], guards);
    assert_eq!(imdl.model_id, "M3");
    assert_eq!(imdl.fwd_guard_bindings.get(&"g".to_string()), Some(&2));
    let copy = imdl.clone();
    assert_eq!(copy.params, imdl.params);
    assert_eq!(copy.fwd_guard_bindings.len(), 1);

    let empty = IMdl::<i64>::new("M4".to_string(), Vec::new());
    assert_eq!(empty.fwd_guard_bindings.len(), 0);

    let right = MdlRightValue::IMdl(copy);
    assert_eq!(right.as_imdl().model_id, "M3");
    let left = MdlLeftValue::MkVal(pos_of("x", binding("p"), false));
    assert_eq!(left.as_mk_val().var_name, "pos");
    let cmd_left = MdlLeftValue::Command(Command::<i64> { name: "grab".to_string(), entity_id: EntityPatternValue::EntityId("h".to_string()), params: vec![] });
    assert_eq!(cmd_left.as_command().name, "grab");
    let cst_left = MdlLeftValue::ICst(ICst::<i64> { cst_id: "S9".to_string(), params: vec![] });
    assert_eq!(cst_left.as_icst().cst_id, "S9");
    let right_mk = MdlRightValue::MkVal(pos_of("y", PatternItem::Any, true));
    assert!(right_mk.as_mk_val().assumption);
}

fn entity_of(v: &i64) -> Option<String> {
    if *v >= 0 {
        Some(format!("e{v}"))
    } else {
        None
    }
}

#[test]
fn entity_ids_from_bindings() {
    let mut bindings: StrMap<i64> = StrMap::new();
    bindings.insert("x".to_string(), 4);
    let b = EntityPatternValue::Binding("x".to_string());
    assert_eq!(b.get_id_with_bindings(&bindings, |v: &i64| format!("id{v}")), Some("id4".to_string()));
    let unbound = EntityPatternValue::Binding("y".to_string());
    assert_eq!(unbound.get_id_with_bindings(&bindings, |v: &i64| format!("id{v}")), None);
    let id = EntityPatternValue::EntityId("h".to_string());
    assert_eq!(id.get_id_with_bindings(&bindings, |v: &i64| format!("id{v}")), Some("h".to_string()));

    let key = pos_of("x", PatternItem::Any, false).entity_key(&bindings, |v: &i64| format!("id{v}")).unwrap();
    assert_eq!(key.entity_id, "id4");
    assert_eq!(key.var_name, "pos");
    assert!(pos_of("y", PatternItem::Any, false).entity_key(&bindings, |v: &i64| format!("id{v}")).is_none());

    let mut e = EntityPatternValue::Binding("x".to_string());
    e.insert_binding_value(&bindings, entity_of);
    assert_eq!(e, EntityPatternValue::EntityId("e4".to_string()));
    bindings.insert("n".to_string(), -1);
    let mut kept = EntityPatternValue::Binding("n".to_string());
    kept.insert_binding_value(&bindings, entity_of);
    assert_eq!(kept, EntityPatternValue::Binding("n".to_string()));
}

#[test]
fn filling_model_sides() {
    let mut bindings: StrMap<i64> = StrMap::new();
    bindings.insert("x".to_string(), 4);
    bindings.insert("p".to_string(), 9);

    let imdl = IMdl::new("M1".to_string(), vec![binding("p"), binding("q")]);
    let filled = imdl.filled_in(&bindings);
    assert_eq!(filled.model_id, "M1");
    assert_eq!(filled.params, vec![PatternItem::Value(9), binding("q")]);
    let right = MdlRightValue::IMdl(imdl);
    assert_eq!(right.as_filled_in_imdl(&bindings).params, vec![PatternItem::Value(9), binding("q")]);
    match right.filled_in(&bindings, entity_of) {
        MdlRightValue::IMdl(i) => assert_eq!(i.params, vec![PatternItem::Value(9), binding("q")]),
        MdlRightValue::MkVal(_) => panic!("the side changed its kind"),
    }

    let left = MdlLeftValue::MkVal(pos_of("x", PatternItem::Vec(vec![binding("p"), binding("z")]), false));
    match left.filled_in(&bindings, entity_of) {
        MdlLeftValue::MkVal(m) => assert_eq!(
            m,
            MkVal {
                entity_id: EntityPatternValue::EntityId("e4".to_string()),
                var_name: "pos".to_string(),
                value: PatternItem::Vec(vec![PatternItem::Value(9), binding("z")]),
                assumption: false,
            }
        ),
        _ => panic!("the side changed its kind"),
    }

    let command = MdlLeftValue::Command(Command {
        name: "move".to_string(),
        entity_id: EntityPatternValue::Binding("x".to_string()),
        params: vec![binding("p")],
    });
    match command.filled_in(&bindings, entity_of) {
        MdlLeftValue::Command(c) => {
            assert_eq!(c.name, "move");
            assert_eq!(c.entity_id, EntityPatternValue::EntityId("e4".to_string()));
            assert_eq!(c.params, vec![PatternItem::Value(9)]);
        }
        _ => panic!("the side changed its kind"),
    }

    let icst = MdlLeftValue::ICst(ICst { cst_id: "S0".to_string(), params: vec![binding("x")] });
    match icst.filled_in(&bindings, entity_of) {
        MdlLeftValue::ICst(i) => assert_eq!(i, ICst { cst_id: "S0".to_string(), params: vec![PatternItem::Value(4)] }),
        _ => panic!("the side changed its kind"),
    }
}

fn arith_i64(op: ArithOp, a: i64, b: i64) -> Option<i64> {
    match op {
        ArithOp::Add => Some(a + b),
        ArithOp::Sub => Some(a - b),
        ArithOp::Mul => Some(a * b),
        ArithOp::Div => if b == 0 { None } else { Some(a / b) },
    }
}

fn sum_vec(items: Vec<i64>) -> i64 {
    items.iter().sum()
}

fn negate(a: i64) -> Option<i64> {
    Some(-a)
}

fn positive_only(a: i64) -> Option<i64> {
    if a > 0 { Some(a) } else { None }
}

#[test]
fn evaluating_functions() {
    let mut bindings: StrMap<i64> = StrMap::new();
    bindings.insert("x".to_string(), 6);
    let x = || Box::new(Function::Value(PatternItem::Binding("x".to_string())));
    let two = || Box::new(Function::Value(PatternItem::Value(2)));
    let eval = |f: &Function<i64>| f.evaluate(&bindings, &sum_vec, &arith_i64, &negate, &positive_only);
    assert_eq!(eval(&Function::Add(x(), two())), Some(8));
    assert_eq!(eval(&Function::Sub(x(), two())), Some(4));
    assert_eq!(eval(&Function::Mul(x(), two())), Some(12));
    assert_eq!(eval(&Function::Div(x(), two())), Some(3));
    assert_eq!(eval(&Function::Div(x(), Box::new(Function::Value(PatternItem::Value(0))))), None);
    let missing = Box::new(Function::Value(PatternItem::Binding("y".to_string())));
    assert_eq!(eval(&Function::Add(x(), missing)), None);
    let list = Function::List(vec![
        Function::Value(PatternItem::Value(1)),
        Function::Value(PatternItem::Binding("y".to_string())),
        Function::Value(PatternItem::Binding("x".to_string())),
    ]);
    assert_eq!(eval(&list), Some(7));
    assert_eq!(eval(&Function::ConvertToEntityId(x())), Some(-6));
    assert_eq!(eval(&Function::ConvertToNumber(Box::new(Function::Sub(two(), x())))), None);
    assert_eq!(eval(&Function::Value(PatternItem::Vec(vec![PatternItem::Value(4), PatternItem::Binding("x".to_string())]))), Some(10));
}
