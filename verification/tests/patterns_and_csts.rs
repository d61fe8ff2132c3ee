use aera::runtime::learning::model_comparison::{
    get_fact_binding_set, get_pattern_item_binding_set, map_fact_bindings, map_pattern_item_bindings,
    merge_facts, merge_pattern_items_for_csts, CombinedCstBindingMap,
};
use aera::runtime::pattern_matching::{fill_in_pattern_with_bindings, value_vec_to_pattern_vec};
use aera::str_map::StrMap;
use aera::types::cst::{BoundCst, Cst, ICst};
use aera::types::pattern::PatternItem;
use aera::types::{Command, EntityDeclaration, EntityPatternValue, Fact, MkVal, TimePatternRange};

fn binding(name: &str) -> PatternItem<i64> {
    PatternItem::Binding(name.to_string())
}

fn mk_val(entity: EntityPatternValue, var: &str, value: PatternItem<i64>) -> MkVal<i64> {
    MkVal { entity_id: entity, var_name: var.to_string(), value, assumption: false }
}

fn entity_binding(name: &str) -> EntityPatternValue {
    EntityPatternValue::Binding(name.to_string())
}

#[test]
fn fill_bound_values_at_any_depth() {
    let mut bindings: StrMap<i64> = StrMap::new();
    bindings.insert("x".to_string(), 5);
    let mut item = PatternItem::Vec(vec![binding("x"), binding("y"), PatternItem::Any, PatternItem::Value(2)]);
    item.insert_binding_values(&bindings);
    assert_eq!(
        item,
        PatternItem::Vec(vec![PatternItem::Value(5), binding("y"), PatternItem::Any, PatternItem::Value(2)])
    );

    let mut single = binding("x");
    single.insert_binding_values(&bindings);
    assert_eq!(single, PatternItem::Value(5));
}

#[test]
fn fill_bound_patterns() {
    let mut bindings: StrMap<PatternItem<i64>> = StrMap::new();
    bindings.insert("x".to_string(), PatternItem::Vec(vec![PatternItem::Any, PatternItem::Value(1)]));
    bindings.insert("y".to_string(), binding("z"));
    let mut item = PatternItem::Vec(vec![binding("x"), binding("y"), binding("w")]);
    item.insert_pattern_binding_values(&bindings);
    assert_eq!(
        item,
        PatternItem::Vec(vec![
            PatternItem::Vec(vec![PatternItem::Any, PatternItem::Value(1)]),
            binding("z"),
            binding("w"),
        ])
    );
}

#[test]
fn pattern_of_one_item_and_clone() {
    let item = PatternItem::Vec(vec![binding("a"), PatternItem::Value(3)]);
    assert_eq!(item.pattern(), vec![item.clone()]);
    assert_eq!(item.clone(), item);
}

#[test]
fn fill_pattern_item_by_item() {
    let mut bindings: StrMap<i64> = StrMap::new();
    bindings.insert("a".to_string(), 7);
    let filled = fill_in_pattern_with_bindings(vec![binding("a"), binding("b"), PatternItem::Vec(vec![binding("a")])], &bindings);
    assert_eq!(
        filled,
        vec![PatternItem::Value(7), binding("b"), PatternItem::Vec(vec![PatternItem::Value(7)])]
    );
    assert_eq!(fill_in_pattern_with_bindings(Vec::new(), &bindings), Vec::<PatternItem<i64>>::new());
}

#[test]
fn values_become_value_items() {
    assert_eq!(
        value_vec_to_pattern_vec(vec![1i64, 2, 3]),
        vec![PatternItem::Value(1), PatternItem::Value(2), PatternItem::Value(3)]
    );
    assert_eq!(value_vec_to_pattern_vec(Vec::<i64>::new()), Vec::new());
}

#[test]
fn mk_val_bindings_start_with_the_entity() {
    let m = mk_val(entity_binding("e"), "pos", PatternItem::Vec(vec![binding("a"), PatternItem::Value(1), binding("b")]));
    assert_eq!(m.get_bindings(), vec!["e".to_string(), "a".to_string(), "b".to_string()]);
    let m2 = mk_val(EntityPatternValue::EntityId("h".to_string()), "pos", binding("a"));
    assert_eq!(m2.get_bindings(), vec!["a".to_string()]);
}

#[test]
fn command_bindings_start_with_the_entity() {
    let c = Command {
        name: "move".to_string(),
        entity_id: entity_binding("CMD_E"),
        params: vec![binding("dx"), PatternItem::Value(2), PatternItem::Vec(vec![binding("dy")])],
    };
    assert_eq!(c.get_bindings(), vec!["CMD_E".to_string(), "dx".to_string(), "dy".to_string()]);
    let c2 = Command::<i64> { name: "grab".to_string(), entity_id: EntityPatternValue::EntityId("h".to_string()), params: vec![] };
    assert!(c2.get_bindings().is_empty());
}

fn sample_cst() -> Cst<i64> {
    let mut cst = Cst::new("S0".to_string());
    cst.entities.push(EntityDeclaration::new("x", "hand"));
    cst.entities.push(EntityDeclaration::new("y", "cube"));
    cst.facts.push(Fact::new(mk_val(entity_binding("x"), "pos", binding("p")), TimePatternRange::wildcard()));
    cst.facts.push(Fact::new(
        mk_val(entity_binding("y"), "pos", PatternItem::Vec(vec![binding("q"), binding("p"), binding("x")])),
        TimePatternRange::wildcard(),
    ));
    cst
}

#[test]
fn cst_parameters_are_unique_in_first_order() {
    let cst = sample_cst();
    assert_eq!(
        cst.binding_params(),
        vec!["x".to_string(), "y".to_string(), "p".to_string(), "q".to_string()]
    );
    let empty: Cst<i64> = Cst::new("S1".to_string());
    assert_eq!(empty.cst_id, "S1");
    assert!(empty.facts.is_empty() && empty.entities.is_empty());
    assert!(empty.binding_params().is_empty());
}

#[test]
fn icst_of_bound_cst() {
    let mut bindings: StrMap<i64> = StrMap::new();
    bindings.insert("y".to_string(), 4);
    bindings.insert("q".to_string(), 9);
    let bound = BoundCst { bindings, cst: sample_cst() };
    assert_eq!(
        bound.icst_for_cst(),
        ICst {
            cst_id: "S0".to_string(),
            params: vec![PatternItem::Any, PatternItem::Value(4), PatternItem::Any, PatternItem::Value(9)],
        }
    );
}

#[test]
fn renaming_bindings() {
    let mut map: StrMap<String> = StrMap::new();
    map.insert("a".to_string(), "b".to_string());
    let item = PatternItem::Vec(vec![binding("a"), binding("z"), PatternItem::Value(3), PatternItem::Any]);
    assert_eq!(
        map_pattern_item_bindings(&item, &map),
        Some(PatternItem::Vec(vec![binding("b"), PatternItem::Any, PatternItem::Value(3), PatternItem::Any]))
    );

    let fact = Fact::new(mk_val(entity_binding("a"), "pos", binding("a")), TimePatternRange::wildcard());
    let renamed = map_fact_bindings(&fact, &map).unwrap();
    assert_eq!(renamed.pattern, mk_val(entity_binding("b"), "pos", binding("b")));
    assert_eq!(renamed.time_range, fact.time_range);

    let unmapped = Fact::new(mk_val(entity_binding("z"), "pos", binding("a")), TimePatternRange::wildcard());
    assert_eq!(map_fact_bindings(&unmapped, &map), None);

    let by_id = Fact::new(mk_val(EntityPatternValue::EntityId("h".to_string()), "pos", binding("z")), TimePatternRange::wildcard());
    assert_eq!(
        map_fact_bindings(&by_id, &map).unwrap().pattern,
        mk_val(EntityPatternValue::EntityId("h".to_string()), "pos", PatternItem::Any)
    );
}

#[test]
fn binding_sets_hold_each_name_once() {
    let fact = Fact::new(
        mk_val(entity_binding("e"), "pos", PatternItem::Vec(vec![binding("e"), binding("a"), binding("a")])),
        TimePatternRange::wildcard(),
    );
    let mut set = get_fact_binding_set(&fact);
    set.sort();
    assert_eq!(set, vec!["a".to_string(), "e".to_string()]);

    let mut names = vec!["a".to_string()];
    get_pattern_item_binding_set(&PatternItem::<i64>::Vec(vec![binding("b"), binding("a")]), &mut names);
    assert_eq!(names, vec!["a".to_string(), "b".to_string()]);
}

#[test]
fn merging_items_names_binding_pairs() {
    let mut combined = CombinedCstBindingMap::new();
    let left = PatternItem::Vec(vec![binding("a"), PatternItem::Value(3), binding("PE"), binding("C1")]);
    let right = PatternItem::Vec(vec![binding("b"), PatternItem::Value(4), binding("PE")]);
    let merged = merge_pattern_items_for_csts(&left, &right, &mut combined);
    assert_eq!(merged, PatternItem::Vec(vec![binding("v0"), PatternItem::Value(3), binding("PE")]));

    // The same pair, in either order, keeps its name.
    let again = merge_pattern_items_for_csts(&binding("b"), &binding("a"), &mut combined);
    assert_eq!(again, binding("v0"));
    let other = merge_pattern_items_for_csts(&binding("c"), &binding("d"), &mut combined);
    assert_eq!(other, binding("v1"));
}

#[test]
fn merging_facts() {
    let mut combined = CombinedCstBindingMap::new();
    let f1 = Fact::new(mk_val(entity_binding("C3"), "pos", binding("P2")), TimePatternRange::wildcard());
    let f2 = Fact::new(mk_val(entity_binding("C7"), "grip", binding("P9")), TimePatternRange::wildcard());
    let merged = merge_facts(&f1, &f2, &mut combined);
    assert_eq!(merged.pattern, mk_val(entity_binding("C0"), "pos", binding("P0")));
    assert_eq!(merged.time_range, f1.time_range);

    let g1 = Fact::new(mk_val(EntityPatternValue::EntityId("h".to_string()), "pos", PatternItem::Value(1)), TimePatternRange::wildcard());
    let g2 = Fact::new(mk_val(EntityPatternValue::EntityId("h".to_string()), "pos", PatternItem::Value(2)), TimePatternRange::wildcard());
    let merged_ids = merge_facts(&g1, &g2, &mut combined);
    assert_eq!(merged_ids.pattern, mk_val(EntityPatternValue::EntityId("h".to_string()), "pos", PatternItem::Value(1)));
}

#[test]
fn filling_leaves_exactly_the_unbound_bindings() {
    let mut bindings: StrMap<i64> = StrMap::new();
    bindings.insert("x".to_string(), 1);
    let mut item = PatternItem::Vec(vec![binding("x"), binding("y"), PatternItem::Vec(vec![binding("x"), binding("z")])]);
    item.insert_binding_values(&bindings);
    assert_eq!(item.get_bindings(), vec!["y".to_string(), "z".to_string()]);
}

#[test]
fn expanding_a_composite_state_with_parameters() {
    let mut cst = Cst::new("S0".to_string());
    cst.entities.push(EntityDeclaration::new("x", "hand"));
    cst.entities.push(EntityDeclaration::new("y", "cube"));
    cst.facts.push(Fact::new(mk_val(entity_binding("x"), "pos", binding("p")), TimePatternRange::wildcard()));
    cst.facts.push(Fact::new(
        mk_val(entity_binding("y"), "pos", PatternItem::Vec(vec![binding("q"), binding("x")])),
        TimePatternRange::wildcard(),
    ));
    let icst = ICst {
        cst_id: "S0".to_string(),
        params: vec![binding("h"), PatternItem::Value(7), PatternItem::Value(3), PatternItem::Any],
    };
    let expanded = icst.expand_cst(cst, |v: &i64| if *v > 0 { Some(format!("e{v}")) } else { None });
    assert_eq!(expanded.cst_id, "S0");
    assert_eq!(expanded.entities, vec![EntityDeclaration::new("h", "hand")]);
    assert_eq!(
        expanded.facts,
        vec![
            Fact::new(mk_val(entity_binding("h"), "pos", PatternItem::Value(3)), TimePatternRange::wildcard()),
            Fact::new(
                mk_val(EntityPatternValue::EntityId("e7".to_string()), "pos", PatternItem::Vec(vec![PatternItem::Any, binding("h")])),
                TimePatternRange::wildcard(),
            ),
        ]
    );
}

#[test]
fn expanding_keeps_an_entity_whose_value_names_none() {
    let mut cst = Cst::new("S1".to_string());
    cst.entities.push(EntityDeclaration::new("x", "hand"));
    cst.facts.push(Fact::new(mk_val(entity_binding("x"), "pos", PatternItem::Any), TimePatternRange::wildcard()));
    let icst = ICst { cst_id: "S1".to_string(), params: vec![PatternItem::Value(-1i64)] };
    let expanded = icst.expand_cst(cst, |v: &i64| if *v > 0 { Some(format!("e{v}")) } else { None });
    assert!(expanded.entities.is_empty());
    assert_eq!(expanded.facts[0].pattern.entity_id, entity_binding("x"));
}

#[test]
fn filling_a_composite_state_with_bound_values() {
    let mut bindings: StrMap<i64> = StrMap::new();
    bindings.insert("x".to_string(), 5);
    bindings.insert("p".to_string(), 2);
    let cst = sample_cst();
    let filled = cst.fill_in_bindings(&bindings, |v: &i64| format!("e{v}"));
    assert_eq!(filled.cst_id, "S0");
    assert_eq!(filled.entities, cst.entities);
    assert_eq!(
        filled.facts[0].pattern,
        mk_val(EntityPatternValue::EntityId("e5".to_string()), "pos", PatternItem::Value(2))
    );
    assert_eq!(
        filled.facts[1].pattern,
        mk_val(entity_binding("y"), "pos", PatternItem::Vec(vec![binding("q"), PatternItem::Value(2), PatternItem::Value(5)]))
    );
}
