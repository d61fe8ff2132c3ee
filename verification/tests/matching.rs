use aera::runtime::learning::full_causal_model_comparison::{
    compare_casual_models_with_bindings, compare_fwd_guard_bindings, compare_pattern_items_with_binding_map,
    compare_patterns_with_binding_map,
};
use aera::runtime::learning::model_comparison::{
    add_to_binding_map, compare_casual_models, compare_model_effects, quick_compare_models, compare_cst_fact_pattern_items, compare_cst_fact_patterns,
    compare_functions, construct_binding_map,
};
use aera::runtime::pattern_matching::{
    compare_commands, compare_icsts, compare_imdls, compare_pattern_items, compare_patterns,
    extract_bindings_from_patterns, extract_duplicate_bindings_from_pattern,
    extract_duplicate_bindings_from_pattern_and_values, pattern_item_matches_value_with_bindings,
    are_goals_equal, bind_values_to_pattern, combine_pattern_bindings, state_matches_facts, pattern_vec_to_value_vec, value_vec_to_pattern_vec, value_matches_pub, PatternMatchResult,
};
use aera::str_map::{KeyMap, StrMap};
use aera::types::cst::{BoundCst, Cst, ICst};
use aera::types::functions::Function;
use aera::types::models::{IMdl, Mdl, MdlLeftValue, MdlRightValue};
use aera::types::pattern::PatternItem;
use aera::types::{
    Command, CommandError, EntityDeclaration, EntityPatternValue, Fact, MkVal, TimePatternRange, TimePatternValue,
};

#[derive(Clone, Debug, PartialEq)]
enum Val {
    Num(i64),
    List(Vec<Val>),
}

fn val_eq(a: &Val, b: &Val) -> bool {
    a == b
}

fn val_as_vec(v: &Val) -> Option<Vec<Val>> {
    match v {
        Val::List(items) => Some(items.clone()),
        Val::Num(_) => None,
    }
}

fn val_make_vec(items: Vec<Val>) -> Val {
    Val::List(items)
}

fn num(n: i64) -> PatternItem<Val> {
    PatternItem::Value(Val::Num(n))
}

fn bind(name: &str) -> PatternItem<Val> {
    PatternItem::Binding(name.to_string())
}

fn get(map: &StrMap<Val>, key: &str) -> Option<Val> {
    map.get(&key.to_string()).cloned()
}

fn matched(result: PatternMatchResult<Val>) -> StrMap<Val> {
    match result {
        PatternMatchResult::True(m) => m,
        PatternMatchResult::False => panic!("expected a match"),
    }
}

fn is_false(result: &PatternMatchResult<Val>) -> bool {
    matches!(result, PatternMatchResult::False)
}

#[test]
fn comparing_pattern_items() {
    assert!(compare_pattern_items(&num(1), &num(1), false, &val_eq, &val_as_vec));
    assert!(!compare_pattern_items(&num(1), &num(2), true, &val_eq, &val_as_vec));
    assert!(compare_pattern_items(&bind("x"), &num(2), true, &val_eq, &val_as_vec));
    assert!(!compare_pattern_items(&bind("x"), &num(2), false, &val_eq, &val_as_vec));
    assert!(!compare_pattern_items(&num(2), &PatternItem::Any, false, &val_eq, &val_as_vec));
    let vec_value = PatternItem::Value(Val::List(vec![Val::Num(1), Val::Num(2)]));
    let vec_pattern = PatternItem::Vec(vec![num(1), bind("y")]);
    assert!(compare_pattern_items(&vec_value, &vec_pattern, false, &val_eq, &val_as_vec));
    assert!(compare_pattern_items(&vec_pattern, &vec_value, false, &val_eq, &val_as_vec));
    assert!(!compare_pattern_items(&PatternItem::Vec(vec![num(1)]), &vec_value, false, &val_eq, &val_as_vec));
    assert!(!compare_pattern_items(&PatternItem::Vec(vec![num(1)]), &num(1), false, &val_eq, &val_as_vec));
    assert!(value_matches_pub(&Val::List(vec![Val::Num(3)]), &PatternItem::Vec(vec![PatternItem::Any]), &val_eq, &val_as_vec));
}

#[test]
fn comparing_patterns() {
    let a = vec![num(1), bind("x")];
    let b = vec![num(1), num(5)];
    assert!(compare_patterns(&a, &b, true, false, &val_eq, &val_as_vec));
    assert!(!compare_patterns(&a, &b, false, false, &val_eq, &val_as_vec));
    let short = vec![num(1)];
    assert!(!compare_patterns(&short, &b, true, false, &val_eq, &val_as_vec));
    assert!(compare_patterns(&short, &b, true, true, &val_eq, &val_as_vec));

    let i1 = IMdl::new("M".to_string(), a.clone());
    let i2 = IMdl::new("M".to_string(), b.clone());
    let i3 = IMdl::new("N".to_string(), b.clone());
    assert!(compare_imdls(&i1, &i2, true, false, &val_eq, &val_as_vec));
    assert!(!compare_imdls(&i1, &i3, true, false, &val_eq, &val_as_vec));
    let c1 = ICst { cst_id: "S".to_string(), params: a.clone() };
    let c2 = ICst { cst_id: "S".to_string(), params: b.clone() };
    assert!(compare_icsts(&c1, &c2, true, false, &val_eq, &val_as_vec));
    assert!(!compare_icsts(&c1, &c2, false, false, &val_eq, &val_as_vec));
    let m1 = Command { name: "go".to_string(), entity_id: EntityPatternValue::EntityId("h".to_string()), params: a };
    let m2 = Command { name: "stop".to_string(), entity_id: EntityPatternValue::EntityId("h".to_string()), params: b };
    assert!(!compare_commands(&m1, &m2, true, false, &val_eq, &val_as_vec));
}

#[test]
fn values_of_patterns() {
    let p = vec![num(1), PatternItem::Vec(vec![num(2), num(3)])];
    assert_eq!(
        pattern_vec_to_value_vec(p, &val_make_vec),
        Some(vec![Val::Num(1), Val::List(vec![Val::Num(2), Val::Num(3)])])
    );
    assert_eq!(pattern_vec_to_value_vec(vec![num(1), bind("x")], &val_make_vec), None);
    assert_eq!(pattern_vec_to_value_vec(vec![PatternItem::Vec(vec![PatternItem::Any])], &val_make_vec), None);
}

#[test]
fn extracting_bindings() {
    let with_bindings = vec![bind("a"), bind("b"), PatternItem::Vec(vec![bind("c"), bind("d")]), bind("a")];
    let with_values = vec![
        num(1),
        PatternItem::Vec(vec![num(2), num(3)]),
        PatternItem::Value(Val::List(vec![Val::Num(4), Val::Num(5)])),
        num(6),
    ];
    let map = extract_bindings_from_patterns(&with_bindings, &with_values, &val_as_vec, &val_make_vec);
    assert_eq!(get(&map, "a"), Some(Val::Num(6)));
    assert_eq!(get(&map, "b"), Some(Val::List(vec![Val::Num(2), Val::Num(3)])));
    assert_eq!(get(&map, "c"), Some(Val::Num(4)));
    assert_eq!(get(&map, "d"), Some(Val::Num(5)));
    assert_eq!(map.len(), 4);

    let partly_bound = extract_bindings_from_patterns(
        &vec![bind("e")],
        &vec![PatternItem::Vec(vec![num(1), bind("z")])],
        &val_as_vec,
        &val_make_vec,
    );
    assert_eq!(partly_bound.len(), 0);

    let dup = extract_duplicate_bindings_from_pattern(
        &vec![bind("x"), PatternItem::Vec(vec![bind("x")])],
        &vec![num(1), PatternItem::Vec(vec![num(2)])],
        &val_as_vec,
    );
    assert_eq!(dup, vec![("x".to_string(), Val::Num(1)), ("x".to_string(), Val::Num(2))]);
    let from_values = extract_duplicate_bindings_from_pattern_and_values(
        &vec![bind("x"), PatternItem::Vec(vec![bind("y")]), bind("z")],
        &vec![Val::Num(1), Val::List(vec![Val::Num(2)])],
        &val_as_vec,
    );
    assert_eq!(from_values, vec![("x".to_string(), Val::Num(1)), ("y".to_string(), Val::Num(2))]);
}

#[test]
fn matching_values_against_patterns() {
    let p = PatternItem::Vec(vec![bind("x"), bind("x"), num(3)]);
    let v = Val::List(vec![Val::Num(1), Val::Num(1), Val::Num(3)]);
    let m = matched(pattern_item_matches_value_with_bindings(&p, &v, StrMap::new(), &val_eq, &val_as_vec));
    assert_eq!(get(&m, "x"), Some(Val::Num(1)));
    assert_eq!(m.len(), 1);

    let mismatch = Val::List(vec![Val::Num(1), Val::Num(2), Val::Num(3)]);
    assert!(is_false(&pattern_item_matches_value_with_bindings(&p, &mismatch, StrMap::new(), &val_eq, &val_as_vec)));
    let mut bound = StrMap::new();
    bound.insert("x".to_string(), Val::Num(9));
    assert!(is_false(&pattern_item_matches_value_with_bindings(&bind("x"), &Val::Num(1), bound, &val_eq, &val_as_vec)));
    assert!(is_false(&pattern_item_matches_value_with_bindings(&p, &Val::Num(1), StrMap::new(), &val_eq, &val_as_vec)));
    let any = matched(pattern_item_matches_value_with_bindings(&PatternItem::Any, &Val::Num(1), StrMap::new(), &val_eq, &val_as_vec));
    assert_eq!(any.len(), 0);
}

fn mk_val(entity: &str, var: &str, value: PatternItem<Val>) -> MkVal<Val> {
    MkVal { entity_id: EntityPatternValue::Binding(entity.to_string()), var_name: var.to_string(), value, assumption: false }
}

#[test]
fn matching_instantiations_and_variables() {
    let mut bindings: StrMap<Val> = StrMap::new();
    bindings.insert("x".to_string(), Val::Num(1));
    let icst = ICst { cst_id: "S".to_string(), params: vec![bind("x"), bind("y")] };
    let other = ICst { cst_id: "S".to_string(), params: vec![num(1), num(2)] };
    assert!(is_false(&icst.matches(&bindings, &other, false, false, &val_eq, &val_as_vec, &val_make_vec)));
    let m = matched(icst.matches(&bindings, &other, true, false, &val_eq, &val_as_vec, &val_make_vec));
    assert_eq!(get(&m, "x"), Some(Val::Num(1)));
    assert_eq!(get(&m, "y"), Some(Val::Num(2)));
    let wrong = ICst { cst_id: "S".to_string(), params: vec![num(3), num(2)] };
    assert!(is_false(&icst.matches(&bindings, &wrong, true, false, &val_eq, &val_as_vec, &val_make_vec)));
    let renamed = ICst { cst_id: "T".to_string(), params: vec![num(1), num(2)] };
    assert!(is_false(&icst.matches(&bindings, &renamed, true, false, &val_eq, &val_as_vec, &val_make_vec)));

    let imdl = IMdl::new("M".to_string(), vec![bind("a")]);
    let imdl_other = IMdl::new("M".to_string(), vec![num(4)]);
    let m = matched(imdl.matches(&StrMap::new(), &imdl_other, true, false, &val_eq, &val_as_vec, &val_make_vec));
    assert_eq!(get(&m, "a"), Some(Val::Num(4)));

    let cmd = Command { name: "go".to_string(), entity_id: EntityPatternValue::EntityId("h".to_string()), params: vec![bind("d")] };
    let cmd_other = Command { name: "go".to_string(), entity_id: EntityPatternValue::EntityId("h".to_string()), params: vec![num(7)] };
    let m = matched(cmd.matches(&StrMap::new(), &cmd_other, true, false, &val_eq, &val_as_vec, &val_make_vec));
    assert_eq!(get(&m, "d"), Some(Val::Num(7)));

    let a = mk_val("e", "pos", PatternItem::Vec(vec![bind("x"), bind("z")]));
    let b = MkVal {
        entity_id: EntityPatternValue::EntityId("h".to_string()),
        var_name: "pos".to_string(),
        value: PatternItem::Value(Val::List(vec![Val::Num(1), Val::Num(8)])),
        assumption: false,
    };
    let m = matched(a.matches(&bindings, &b, true, &val_eq, &val_as_vec, &val_make_vec));
    assert_eq!(get(&m, "z"), Some(Val::Num(8)));
    assert!(is_false(&a.matches(&bindings, &b, false, &val_eq, &val_as_vec, &val_make_vec)));
    assert!(a.matches_mk_val(&b, &val_eq, &val_as_vec));
    let c = mk_val("e", "grip", bind("x"));
    assert!(!a.matches_mk_val(&c, &val_eq, &val_as_vec));

    let left = MdlLeftValue::MkVal(a.clone());
    let m = matched(left.matches(&bindings, &MdlLeftValue::MkVal(b.clone()), &val_eq, &val_as_vec, &val_make_vec));
    assert_eq!(get(&m, "x"), Some(Val::Num(1)));
    assert!(is_false(&left.matches(&bindings, &MdlLeftValue::ICst(other.clone()), &val_eq, &val_as_vec, &val_make_vec)));
    let right = MdlRightValue::IMdl(imdl.clone());
    let m = matched(right.matches(&StrMap::new(), &MdlRightValue::IMdl(imdl_other), &val_eq, &val_as_vec, &val_make_vec));
    assert_eq!(get(&m, "a"), Some(Val::Num(4)));
}

#[test]
fn matching_a_bound_state_against_an_instantiation() {
    let mut cst = Cst::new("S".to_string());
    cst.entities.push(EntityDeclaration::new("x", "hand"));
    cst.facts.push(Fact::new(mk_val("x", "pos", bind("p")), TimePatternRange::wildcard()));
    let mut bindings = StrMap::new();
    bindings.insert("x".to_string(), Val::Num(1));
    let bound = BoundCst { bindings, cst };
    let icst = ICst { cst_id: "S".to_string(), params: vec![bind("h"), bind("q")] };
    let m = matched(bound.match_and_get_bindings_for_icst(&icst, &val_eq, &val_as_vec, &val_make_vec));
    assert_eq!(get(&m, "h"), Some(Val::Num(1)));
    assert_eq!(get(&m, "q"), None);
    let other = ICst { cst_id: "T".to_string(), params: vec![] };
    assert!(is_false(&bound.match_and_get_bindings_for_icst(&other, &val_eq, &val_as_vec, &val_make_vec)));
}

#[test]
fn comparing_composite_state_facts() {
    assert!(compare_cst_fact_pattern_items(&PatternItem::Any, &num(1), &val_eq, &val_as_vec));
    assert!(compare_cst_fact_pattern_items(&bind("a"), &bind("a"), &val_eq, &val_as_vec));
    assert!(!compare_cst_fact_pattern_items(&bind("a"), &bind("b"), &val_eq, &val_as_vec));
    assert!(compare_cst_fact_pattern_items(&bind("a"), &num(1), &val_eq, &val_as_vec));
    assert!(!compare_cst_fact_pattern_items(&num(1), &bind("a"), &val_eq, &val_as_vec));
    assert!(compare_cst_fact_patterns(&vec![num(1), bind("a")], &vec![num(1), bind("a")], &val_eq, &val_as_vec));
    assert!(!compare_cst_fact_patterns(&vec![num(1)], &vec![num(1), bind("a")], &val_eq, &val_as_vec));
}

#[test]
fn comparing_functions() {
    let f1 = Function::Add(Box::new(Function::Value(bind("a"))), Box::new(Function::Value(num(1))));
    let f2 = Function::Add(Box::new(Function::Value(bind("b"))), Box::new(Function::Value(num(1))));
    let f3 = Function::Sub(Box::new(Function::Value(bind("b"))), Box::new(Function::Value(num(1))));
    assert!(compare_functions(&f1, &f2, &val_eq, &val_as_vec));
    assert!(!compare_functions(&f1, &f3, &val_eq, &val_as_vec));
    let l1 = Function::List(vec![Function::Value(num(1))]);
    let l2 = Function::List(vec![Function::Value(num(2))]);
    assert!(!compare_functions(&l1, &l2, &val_eq, &val_as_vec));
}

#[test]
fn binding_maps_between_patterns() {
    let mut map: StrMap<String> = StrMap::new();
    assert!(compare_patterns_with_binding_map(&vec![bind("a"), num(1)], &vec![bind("x"), num(1)], &mut map, &val_eq));
    assert_eq!(map.get(&"a".to_string()), Some(&"x".to_string()));
    assert!(!compare_pattern_items_with_binding_map(&bind("a"), &bind("y"), &mut map, &val_eq));
    assert!(!compare_patterns_with_binding_map(&vec![num(1)], &vec![], &mut map, &val_eq));

    let mut added: StrMap<String> = StrMap::new();
    assert!(add_to_binding_map(&PatternItem::Vec(vec![bind("a"), bind("b")]), &PatternItem::Vec(vec![bind("x")]), &mut added, &val_eq));
    assert_eq!(added.len(), 1);
    assert!(!add_to_binding_map(&num(1), &num(2), &mut added, &val_eq));
    let i1 = IMdl::new("M".to_string(), vec![bind("p"), bind("q")]);
    let i2 = IMdl::new("M".to_string(), vec![bind("r"), bind("s")]);
    let mut built: StrMap<String> = StrMap::new();
    assert!(construct_binding_map(&i1, &i2, &mut built, &val_eq));
    assert_eq!(built.get(&"q".to_string()), Some(&"s".to_string()));

    let mut g1: StrMap<Val> = StrMap::new();
    g1.insert("u".to_string(), Val::Num(5));
    let mut g2: StrMap<Val> = StrMap::new();
    g2.insert("w".to_string(), Val::Num(5));
    let mut guard_map: StrMap<String> = StrMap::new();
    assert!(compare_fwd_guard_bindings(&g1, &g2, &mut guard_map, &val_eq));
    assert_eq!(guard_map.get(&"u".to_string()), Some(&"w".to_string()));
    let mut g3: StrMap<Val> = StrMap::new();
    g3.insert("w".to_string(), Val::Num(6));
    let mut other_map: StrMap<String> = StrMap::new();
    assert!(!compare_fwd_guard_bindings(&g1, &g3, &mut other_map, &val_eq));
}

fn causal_model(command_entity: &str, target: &str) -> Mdl<Val, f64> {
    Mdl {
        model_id: "M".to_string(),
        left: Fact::new(
            MdlLeftValue::Command(Command {
                name: "move".to_string(),
                entity_id: EntityPatternValue::Binding(command_entity.to_string()),
                params: vec![bind("d")],
            }),
            TimePatternRange::wildcard(),
        ),
        right: Fact::new(MdlRightValue::MkVal(mk_val(target, "pos", bind("d"))), TimePatternRange::wildcard()),
        confidence: 1.0,
        success_count: 0,
        forward_computed: Vec::new(),
        backward_computed: Vec::new(),
    }
}

#[test]
fn comparing_causal_models() {
    let same_shape = causal_model("c", "c");
    let renamed = causal_model("e", "e");
    let crossed = causal_model("e", "f");
    assert!(compare_casual_models_with_bindings(&same_shape, &renamed, &val_eq));
    assert!(!compare_casual_models_with_bindings(&same_shape, &crossed, &val_eq));
    assert!(compare_casual_models(&same_shape, &crossed, &val_eq, &val_as_vec));
}

#[test]
fn values_of_items_under_bindings() {
    let mut bindings: StrMap<Val> = StrMap::new();
    bindings.insert("x".to_string(), Val::Num(7));
    assert_eq!(bind("x").get_value_with_bindings(&bindings, &val_make_vec), Some(Val::Num(7)));
    assert_eq!(bind("y").get_value_with_bindings(&bindings, &val_make_vec), None);
    assert_eq!(num(3).get_value_with_bindings(&bindings, &val_make_vec), Some(Val::Num(3)));
    assert_eq!(PatternItem::<Val>::Any.get_value_with_bindings(&bindings, &val_make_vec), None);
    let nested = PatternItem::Vec(vec![num(1), bind("x")]);
    assert_eq!(
        nested.get_value_with_bindings(&bindings, &val_make_vec),
        Some(Val::List(vec![Val::Num(1), Val::Num(7)]))
    );
    let unbound = PatternItem::Vec(vec![num(1), bind("y")]);
    assert_eq!(unbound.get_value_with_bindings(&bindings, &val_make_vec), None);
}

#[test]
fn binding_values_into_a_pattern() {
    let mut bindings: StrMap<Val> = StrMap::new();
    bindings.insert("x".to_string(), Val::Num(7));
    let pattern = vec![bind("x"), bind("missing"), num(2), PatternItem::Vec(vec![bind("x"), bind("missing")])];
    assert_eq!(
        bind_values_to_pattern(&pattern, &bindings, &val_make_vec),
        vec![Val::Num(7), Val::Num(2), Val::List(vec![Val::Num(7)])]
    );
    assert_eq!(bind_values_to_pattern(&Vec::new(), &bindings, &val_make_vec), Vec::<Val>::new());
}

fn val_id(v: &Val) -> String {
    match v {
        Val::Num(n) => format!("entity_{n}"),
        Val::List(_) => "list".to_string(),
    }
}

#[test]
fn making_runtime_commands() {
    let mut bindings: StrMap<Val> = StrMap::new();
    bindings.insert("e".to_string(), Val::Num(4));
    bindings.insert("x".to_string(), Val::Num(7));
    let command = Command {
        name: "move".to_string(),
        entity_id: EntityPatternValue::Binding("e".to_string()),
        params: vec![bind("x"), num(1)],
    };
    let runtime = command.to_runtime_command(&bindings, &val_make_vec, val_id).unwrap();
    assert_eq!(runtime.name, "move");
    assert_eq!(runtime.entity_id, "entity_4");
    assert_eq!(runtime.params, vec![Val::Num(7), Val::Num(1)]);

    let fixed = Command {
        name: "grab".to_string(),
        entity_id: EntityPatternValue::EntityId("hand".to_string()),
        params: vec![],
    };
    assert_eq!(fixed.to_runtime_command(&bindings, &val_make_vec, val_id).unwrap().entity_id, "hand");

    let missing_param = Command {
        name: "move".to_string(),
        entity_id: EntityPatternValue::Binding("e".to_string()),
        params: vec![bind("y")],
    };
    assert!(matches!(
        missing_param.to_runtime_command(&bindings, &val_make_vec, val_id),
        Err(CommandError::ParamBindingsMissing)
    ));

    let missing_entity = Command {
        name: "move".to_string(),
        entity_id: EntityPatternValue::Binding("other".to_string()),
        params: vec![bind("x")],
    };
    assert!(matches!(
        missing_entity.to_runtime_command(&bindings, &val_make_vec, val_id),
        Err(CommandError::EntityBindingMissing)
    ));
}

#[test]
fn combining_pattern_bindings() {
    let combined = combine_pattern_bindings(vec![num(1), bind("x"), PatternItem::Any], vec![bind("y"), num(2)], &val_as_vec);
    assert_eq!(combined, vec![num(1), num(2), PatternItem::Any]);

    assert_eq!(combine_pattern_bindings(vec![bind("a")], vec![bind("b")], &val_as_vec), vec![bind("a")]);
    assert_eq!(combine_pattern_bindings(vec![PatternItem::Any], vec![bind("b")], &val_as_vec), vec![bind("b")]);
    assert_eq!(combine_pattern_bindings(vec![num(1)], vec![num(2)], &val_as_vec), vec![num(1)]);
    assert_eq!(
        combine_pattern_bindings(vec![PatternItem::Any], vec![PatternItem::Any, num(3)], &val_as_vec),
        vec![PatternItem::Any, num(3)]
    );

    let nested = combine_pattern_bindings(
        vec![PatternItem::Vec(vec![bind("x"), num(2)])],
        vec![PatternItem::Value(Val::List(vec![Val::Num(1), Val::Num(3)]))],
        &val_as_vec,
    );
    assert_eq!(nested, vec![PatternItem::Vec(vec![num(1), num(2)])]);

    let from_value = combine_pattern_bindings(
        vec![PatternItem::Value(Val::List(vec![Val::Num(1), Val::Num(2)]))],
        vec![PatternItem::Vec(vec![PatternItem::Any, bind("z"), num(9)])],
        &val_as_vec,
    );
    assert_eq!(from_value, vec![PatternItem::Vec(vec![num(1), num(2), num(9)])]);

    let plain_value = combine_pattern_bindings(vec![num(5)], vec![PatternItem::Vec(vec![num(1)])], &val_as_vec);
    assert_eq!(plain_value, vec![num(5)]);

    let both_vecs = combine_pattern_bindings(
        vec![PatternItem::Vec(vec![bind("p")])],
        vec![PatternItem::Vec(vec![num(4), bind("q")])],
        &val_as_vec,
    );
    assert_eq!(both_vecs, vec![PatternItem::Vec(vec![num(4), bind("q")])]);
}

#[test]
fn merging_instantiated_models() {
    let mut own_guards: StrMap<Val> = StrMap::new();
    own_guards.insert("g".to_string(), Val::Num(1));
    own_guards.insert("h".to_string(), Val::Num(2));
    let mut other_guards: StrMap<Val> = StrMap::new();
    other_guards.insert("h".to_string(), Val::Num(3));
    other_guards.insert("k".to_string(), Val::Num(4));
    let mine = IMdl::with_fwd_guards("M".to_string(), vec![bind("a"), num(2)], own_guards);
    let other = IMdl::with_fwd_guards("M".to_string(), vec![num(1), num(7)], other_guards);
    let merged = mine.merge_with(other, &val_as_vec);
    assert_eq!(merged.model_id, "M");
    assert_eq!(merged.params, vec![num(1), num(2)]);
    assert_eq!(get(&merged.fwd_guard_bindings, "g"), Some(Val::Num(1)));
    assert_eq!(get(&merged.fwd_guard_bindings, "h"), Some(Val::Num(3)));
    assert_eq!(get(&merged.fwd_guard_bindings, "k"), Some(Val::Num(4)));
    assert_eq!(merged.fwd_guard_bindings.len(), 3);
}

fn req_model(cst_id: &str, params: Vec<PatternItem<Val>>) -> Mdl<Val, f64> {
    Mdl {
        model_id: "R".to_string(),
        left: Fact::new(
            MdlLeftValue::ICst(ICst { cst_id: cst_id.to_string(), params: params.clone() }),
            TimePatternRange::wildcard(),
        ),
        right: Fact::new(MdlRightValue::IMdl(IMdl::new("C".to_string(), params)), TimePatternRange::wildcard()),
        confidence: 1.0,
        success_count: 0,
        forward_computed: Vec::new(),
        backward_computed: Vec::new(),
    }
}

fn state(id: &str, entities: Vec<(&str, &str)>, facts: Vec<MkVal<Val>>) -> Cst<Val> {
    let mut cst = Cst::new(id.to_string());
    for (b, c) in entities {
        cst.entities.push(EntityDeclaration::new(b, c));
    }
    for f in facts {
        cst.facts.push(Fact::new(f, TimePatternRange::wildcard()));
    }
    cst
}

#[test]
fn comparing_model_effects() {
    let cst1 = state("S1", vec![("x", "hand")], vec![mk_val("x", "pos", bind("p"))]);
    let cst2 = state("S2", vec![("y", "hand")], vec![mk_val("y", "pos", bind("q"))]);
    let req1 = req_model("S1", vec![bind("x")]);
    let req2 = req_model("S2", vec![bind("y")]);
    let causal = causal_model("c", "c");
    let merged = compare_model_effects(&cst1, &req1, &causal, &cst2, &req2, &causal, &val_eq, &val_as_vec).unwrap();
    assert_eq!(merged.cst_id, "S1");
    assert_eq!(merged.entities, vec![EntityDeclaration::new("v0", "hand")]);
    assert_eq!(merged.facts.len(), 1);
    assert_eq!(merged.facts[0].pattern.entity_id, EntityPatternValue::Binding("v0".to_string()));
    assert_eq!(merged.facts[0].pattern.var_name, "pos");
    assert_eq!(merged.facts[0].pattern.value, bind("v1"));

    let mut other_causal = causal_model("c", "c");
    other_causal.left.pattern = MdlLeftValue::Command(Command {
        name: "grab".to_string(),
        entity_id: EntityPatternValue::Binding("c".to_string()),
        params: vec![bind("d")],
    });
    assert!(compare_model_effects(&cst1, &req1, &causal, &cst2, &req2, &other_causal, &val_eq, &val_as_vec).is_none());

    let cst3 = state("S3", vec![("z", "hand")], vec![mk_val("z", "pos", bind("q"))]);
    assert!(compare_model_effects(&cst1, &req1, &causal, &cst3, &req2, &causal, &val_eq, &val_as_vec).is_none());

    let longer = req_model("S2", vec![bind("y"), bind("w")]);
    assert!(compare_model_effects(&cst1, &req1, &causal, &cst2, &longer, &causal, &val_eq, &val_as_vec).is_none());

    let cst4 = state("S1", vec![("x", "hand"), ("w", "cube")], vec![mk_val("x", "pos", bind("p"))]);
    let cst5 = state("S2", vec![("y", "hand"), ("u", "cube")], vec![mk_val("y", "pos", bind("q"))]);
    assert!(compare_model_effects(&cst4, &req1, &causal, &cst5, &req2, &causal, &val_eq, &val_as_vec).is_none());
}

#[test]
fn mapped_entities_of_another_class_are_not_merged() {
    let cst1 = state("S1", vec![("x", "hand")], vec![mk_val("x", "pos", bind("p"))]);
    let cube = state("S2", vec![("y", "cube")], vec![mk_val("y", "pos", bind("q"))]);
    let req1 = req_model("S1", vec![bind("x")]);
    let req2 = req_model("S2", vec![bind("y")]);
    let causal = causal_model("c", "c");
    let merged = compare_model_effects(&cst1, &req1, &causal, &cube, &req2, &causal, &val_eq, &val_as_vec).unwrap();
    assert!(merged.entities.is_empty());
    assert_eq!(merged.facts.len(), 1);
}

#[test]
fn quick_comparison_of_models() {
    let req1 = req_model("S1", vec![bind("x")]);
    let req2 = req_model("S2", vec![bind("y")]);
    let causal = causal_model("c", "c");
    assert!(quick_compare_models(&req1, &causal, &req2, &causal_model("e", "f")));
    let longer = req_model("S2", vec![bind("y"), bind("z")]);
    assert!(!quick_compare_models(&req1, &causal, &longer, &causal));
    let mut renamed_var = causal_model("c", "c");
    renamed_var.right.pattern = MdlRightValue::MkVal(mk_val("c", "grip", bind("d")));
    assert!(!quick_compare_models(&req1, &causal, &req2, &renamed_var));
    let mut other_command = causal_model("c", "c");
    other_command.left.pattern = MdlLeftValue::Command(Command {
        name: "grab".to_string(),
        entity_id: EntityPatternValue::Binding("c".to_string()),
        params: vec![],
    });
    assert!(!quick_compare_models(&req1, &causal, &req2, &other_command));
}

#[test]
fn values_round_trip_through_patterns() {
    let values = vec![Val::Num(1), Val::List(vec![Val::Num(2)])];
    let pattern = value_vec_to_pattern_vec(values.clone());
    assert_eq!(pattern_vec_to_value_vec(pattern, &val_make_vec), Some(values));
}

#[test]
fn wildcards_fill_in_nothing() {
    let p = vec![num(1), bind("x"), PatternItem::Vec(vec![bind("y")]), PatternItem::Any];
    let wildcards = vec![PatternItem::Any, PatternItem::Any];
    assert_eq!(combine_pattern_bindings(p.clone(), wildcards.clone(), &val_as_vec), p);
    assert_eq!(combine_pattern_bindings(wildcards, p.clone(), &val_as_vec), p);
}

fn known(entity: &str, var: &str, value: PatternItem<Val>) -> Fact<MkVal<Val>> {
    Fact::new(
        MkVal { entity_id: EntityPatternValue::EntityId(entity.to_string()), var_name: var.to_string(), value, assumption: false },
        TimePatternRange::wildcard(),
    )
}

#[test]
fn facts_holding_in_a_state() {
    let mut variables: KeyMap<(String, String), Val> = KeyMap::new();
    variables.insert(("h".to_string(), "pos".to_string()), Val::List(vec![Val::Num(1), Val::Num(2)]));
    variables.insert(("o".to_string(), "size".to_string()), Val::Num(3));
    let holds = vec![known("h", "pos", PatternItem::Vec(vec![num(1), bind("y")])), known("o", "size", num(3))];
    assert!(state_matches_facts(&variables, &holds, &val_eq, &val_as_vec));
    assert!(state_matches_facts(&variables, &vec![], &val_eq, &val_as_vec));
    assert!(!state_matches_facts(&variables, &vec![known("o", "size", num(4))], &val_eq, &val_as_vec));
    assert!(!state_matches_facts(&variables, &vec![known("o", "color", num(3))], &val_eq, &val_as_vec));
    let unbound = Fact::new(mk_val("e", "size", num(3)), TimePatternRange::wildcard());
    assert!(!state_matches_facts(&variables, &vec![unbound], &val_eq, &val_as_vec));
}

#[test]
fn goals_equal_regardless_of_timing() {
    let a = known("h", "pos", num(1));
    let b = known("o", "size", num(3));
    let mut a_later = known("h", "pos", num(1));
    a_later.time_range = TimePatternRange::new(TimePatternValue::Time(5), TimePatternValue::Time(9));
    assert!(are_goals_equal(&vec![a.clone(), b.clone()], &vec![b.clone(), a_later], &val_eq));
    assert!(!are_goals_equal(&vec![a.clone()], &vec![a.clone(), b.clone()], &val_eq));
    assert!(!are_goals_equal(&vec![a.clone()], &vec![known("h", "pos", num(2))], &val_eq));
    assert!(!are_goals_equal(&vec![a.clone()], &vec![known("h", "pos", bind("x"))], &val_eq));
    assert!(are_goals_equal(&vec![], &vec![], &val_eq));
}
