use aera::runtime::learning::full_causal_model_comparison::compare_entity_patterns_with_binding_map;
use aera::runtime::learning::model_comparison::{get_var_prefix, order_vars, CombinedCstBindingMap};
use aera::runtime::learning::utils::{
    generate_anti_req_model_name, generate_casual_model_name, generate_cst_name, generate_req_model_name,
};
use aera::str_map::StrMap;
use aera::types::EntityPatternValue;

#[test]
fn var_prefixes() {
    assert_eq!(get_var_prefix("P3"), "P");
    assert_eq!(get_var_prefix("PE"), "P");
    assert_eq!(get_var_prefix("CMD1"), "CMD");
    assert_eq!(get_var_prefix("CMD_E"), "CMD");
    assert_eq!(get_var_prefix("C0"), "C");
    assert_eq!(get_var_prefix("CM"), "C");
    assert_eq!(get_var_prefix("v4"), "v");
    assert_eq!(get_var_prefix("x"), "v");
    assert_eq!(get_var_prefix(""), "v");
}

#[test]
fn order_vars_sorts_the_pair() {
    assert_eq!(order_vars("b", "a"), ("a", "b"));
    assert_eq!(order_vars("a", "b"), ("a", "b"));
    assert_eq!(order_vars("P1", "P1"), ("P1", "P1"));
    assert_eq!(order_vars("P10", "P2"), ("P10", "P2"));
}

#[test]
fn combined_names_are_numbered_per_prefix() {
    let mut m = CombinedCstBindingMap::new();
    assert_eq!(m.get_new_var_name("P1", "P2"), "P0");
    assert_eq!(m.get_new_var_name("P3", "P4"), "P1");
    assert_eq!(m.get_new_var_name("CMD0", "CMD1"), "CMD0");
    assert_eq!(m.get_new_var_name("C3", "C1"), "C0");
    assert_eq!(m.get_new_var_name("x", "y"), "v0");
    assert_eq!(m.get_new_var_name("v7", "v8"), "v1");
}

#[test]
fn combined_names_are_stable_and_symmetric() {
    let mut m = CombinedCstBindingMap::new();
    assert_eq!(m.get_new_var_name("P1", "P2"), "P0");
    assert_eq!(m.get_new_var_name("P2", "P1"), "P0");
    assert_eq!(m.get_new_var_name("P1", "P2"), "P0");
    assert_eq!(m.get_new_var_name("P1", "P3"), "P1");
}

#[test]
fn special_bindings_keep_their_names() {
    let mut m = CombinedCstBindingMap::new();
    assert_eq!(m.get_new_var_name("PE", "PE"), "PE");
    assert_eq!(m.get_new_var_name("CMD_E", "CMD_E"), "CMD_E");
    assert_eq!(m.get_new_var_name("PE", "CMD_E"), "PE");
    assert_eq!(m.get_new_var_name("P5", "P6"), "P0");
}

#[test]
fn add_new_var_renames_an_existing_pair() {
    let mut m = CombinedCstBindingMap::new();
    assert_eq!(m.add_new_var("P1", "P2"), "P0");
    assert_eq!(m.add_new_var("P2", "P1"), "P1");
    assert_eq!(m.get_new_var_name("P1", "P2"), "P1");
}

#[test]
fn entity_ids_compare_by_value() {
    let mut map: StrMap<String> = StrMap::new();
    let a = EntityPatternValue::EntityId("h".to_string());
    let b = EntityPatternValue::EntityId("h".to_string());
    let c = EntityPatternValue::EntityId("o".to_string());
    assert!(compare_entity_patterns_with_binding_map(&a, &b, &mut map));
    assert!(!compare_entity_patterns_with_binding_map(&a, &c, &mut map));
    assert_eq!(map.len(), 0);
}

#[test]
fn bindings_are_mapped_consistently() {
    let mut map: StrMap<String> = StrMap::new();
    let b1 = EntityPatternValue::Binding("x".to_string());
    let b2 = EntityPatternValue::Binding("y".to_string());
    let b3 = EntityPatternValue::Binding("z".to_string());
    assert!(compare_entity_patterns_with_binding_map(&b1, &b2, &mut map));
    assert_eq!(map.get(&"x".to_string()), Some(&"y".to_string()));
    assert!(compare_entity_patterns_with_binding_map(&b1, &b2, &mut map));
    assert!(!compare_entity_patterns_with_binding_map(&b1, &b3, &mut map));
    assert_eq!(map.len(), 1);
}

#[test]
fn binding_never_matches_entity_id() {
    let mut map: StrMap<String> = StrMap::new();
    let b = EntityPatternValue::Binding("x".to_string());
    let e = EntityPatternValue::EntityId("x".to_string());
    assert!(!compare_entity_patterns_with_binding_map(&b, &e, &mut map));
    assert!(!compare_entity_patterns_with_binding_map(&e, &b, &mut map));
    assert_eq!(map.len(), 0);
}

#[test]
fn generated_model_and_cst_names() {
    assert_eq!(generate_casual_model_name(0), "mdl_0");
    assert_eq!(generate_casual_model_name(12), "mdl_12");
    assert_eq!(generate_req_model_name(3), "mdl_req_3");
    assert_eq!(generate_anti_req_model_name(40), "mdl_anti_req_40");
    assert_eq!(generate_cst_name(5), "cst_5");
}
