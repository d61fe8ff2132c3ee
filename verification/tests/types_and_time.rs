use aera::types::cst::InstantiatedCstEntityBinding;
use aera::types::runtime::SystemTime;
use aera::types::{
    EntityDeclaration, EntityPatternValue, EntityVariableKey, Fact, TimePatternRange, TimePatternValue,
};
use aera::runtime::runtime_main::advance_time_step;

#[test]
fn fact_new_and_with_pattern() {
    let range = TimePatternRange::new(TimePatternValue::Time(3), TimePatternValue::Binding("t".to_string()));
    let f = Fact::new(5u32, range.clone());
    assert_eq!(f.pattern, 5);
    assert_eq!(f.time_range, range);
    let g = f.with_pattern("other".to_string());
    assert_eq!(g.pattern, "other");
    assert_eq!(g.time_range, range);
}

#[test]
fn wildcard_range_is_any_to_any() {
    let r = TimePatternRange::wildcard();
    assert_eq!(r.from, TimePatternValue::Any);
    assert_eq!(r.to, TimePatternValue::Any);
}

#[test]
fn entity_variable_key_equality() {
    let a = EntityVariableKey::new("h", "position");
    let b = EntityVariableKey::new("h", "position");
    let c = EntityVariableKey::new("h", "holding");
    assert_eq!(a.entity_id, "h");
    assert_eq!(a.var_name, "position");
    assert!(a == b);
    assert!(a != c);
}

#[test]
fn entity_pattern_value_is_binding() {
    let b = EntityPatternValue::Binding("hb".to_string());
    let e = EntityPatternValue::EntityId("hb".to_string());
    assert!(b.is_binding("hb"));
    assert!(!b.is_binding("h"));
    assert!(!e.is_binding("hb"));
    assert!(b != e);
    assert!(b == EntityPatternValue::Binding("hb".to_string()));
    assert!(e == EntityPatternValue::EntityId("hb".to_string()));
}

#[test]
fn declarations_and_entity_bindings() {
    let d = EntityDeclaration::new("hb", "hand");
    assert_eq!(d.binding, "hb");
    assert_eq!(d.class, "hand");
    let b = InstantiatedCstEntityBinding::new("hb".to_string(), "h".to_string());
    assert_eq!(b.binding, "hb");
    assert_eq!(b.entity_id, "h");
}

#[test]
fn wildcard_time_pattern_matches_ordinary_times() {
    let any = TimePatternRange::wildcard();
    assert!(SystemTime::Exact(0).matches_pattern(&any));
    assert!(SystemTime::Exact(500).matches_pattern(&any));
    assert!(SystemTime::Range(3, u64::MAX).matches_pattern(&any));
    assert!(!SystemTime::Exact(u64::MAX).matches_pattern(&any));
    assert!(!SystemTime::Range(u64::MAX, u64::MAX).matches_pattern(&any));
}

#[test]
fn fixed_time_patterns_match_overlapping_times() {
    let p = TimePatternRange::new(TimePatternValue::Time(0), TimePatternValue::Time(10));
    assert!(SystemTime::Exact(5).matches_pattern(&p));
    assert!(SystemTime::Exact(0).matches_pattern(&p));
    assert!(!SystemTime::Exact(10).matches_pattern(&p));
    assert!(SystemTime::Range(8, 20).matches_pattern(&p));
    assert!(SystemTime::Range(20, 30).matches_pattern(&p) == false);
    assert!(SystemTime::Range(0, 30).matches_pattern(&TimePatternRange::new(TimePatternValue::Time(5), TimePatternValue::Time(6))));
    let open_end = TimePatternRange::new(TimePatternValue::Time(5), TimePatternValue::Any);
    assert!(SystemTime::Exact(5).matches_pattern(&open_end));
    assert!(!SystemTime::Exact(4).matches_pattern(&open_end));
    let empty = TimePatternRange::new(TimePatternValue::Time(7), TimePatternValue::Time(3));
    assert!(!SystemTime::Range(0, 10).matches_pattern(&empty));
    let until_zero = TimePatternRange::new(TimePatternValue::Any, TimePatternValue::Time(0));
    assert!(!SystemTime::Exact(5).matches_pattern(&until_zero));
}

#[test]
fn time_advances_by_one_hundred_milliseconds() {
    let mut t = SystemTime::Exact(0);
    advance_time_step(&mut t);
    assert_eq!(t, SystemTime::Exact(100));
    advance_time_step(&mut t);
    assert_eq!(t, SystemTime::Exact(200));
}

#[test]
fn each_pass_of_the_loop_adds_one_step() {
    let mut t = SystemTime::Exact(0);
    for _ in 0..25 {
        advance_time_step(&mut t);
    }
    assert_eq!(t, SystemTime::Exact(2500));
}
