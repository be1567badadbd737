use lib::{eval_condition, Property, PropertyResult, VarMap};

#[test]
fn test_property_result_satisfied() {
    let r = PropertyResult::Satisfied;
    assert!(r.is_satisfied());
    assert!(!r.is_violated());
}

#[test]
fn test_property_result_violated() {
    let r = PropertyResult::Violated(vec![0, 1, 2]);
    assert!(r.is_violated());
    assert_eq!(r.counterexample(), Some(&[0u32, 1, 2][..]));
}

#[test]
fn test_safety_property() {
    let p = Property::safety("mutual_excl", "NOT critical");
    assert_eq!(p.name(), "mutual_excl");
}

#[test]
fn test_reachability_property() {
    let p = Property::reachability("can_finish", "done");
    assert_eq!(p.name(), "can_finish");
}

#[test]
fn test_liveness_property() {
    let p = Property::liveness("progress", "done");
    assert_eq!(p.name(), "progress");
}

#[test]
fn test_eval_single_var() {
    let mut vars = VarMap::new();
    vars.insert("ready".to_string(), true);
    assert!(eval_condition("ready", &vars));
    assert!(!eval_condition("go", &vars));
}

#[test]
fn test_eval_not() {
    let mut vars = VarMap::new();
    vars.insert("error".to_string(), false);
    assert!(eval_condition("NOT error", &vars));
}

#[test]
fn test_eval_and() {
    let mut vars = VarMap::new();
    vars.insert("a".to_string(), true);
    vars.insert("b".to_string(), true);
    assert!(eval_condition("a AND b", &vars));
    vars.insert("b".to_string(), false);
    assert!(!eval_condition("a AND b", &vars));
}

#[test]
fn test_eval_or() {
    let mut vars = VarMap::new();
    vars.insert("a".to_string(), false);
    vars.insert("b".to_string(), true);
    assert!(eval_condition("a OR b", &vars));
}

#[test]
fn test_display_property() {
    let p = Property::safety("test", "ready");
    assert!(p.to_text().contains("AG(ready)"));
}

#[test]
fn property_texts() {
    assert_eq!(Property::safety("s", "a").to_text(), "AG(a) [s]");
    assert_eq!(Property::reachability("r", "done").to_text(), "EF(done) [r]");
    assert_eq!(Property::liveness("l", "done").to_text(), "AF(done) [l]");
    let c = Property::Custom { name: "c".to_string(), description: "fair".to_string() };
    assert_eq!(c.to_text(), "fair [c]");
    assert_eq!(c.name(), "c");
}

#[test]
fn counterexample_of_satisfied_is_none() {
    assert_eq!(PropertyResult::Satisfied.counterexample(), None);
    let empty = PropertyResult::Violated(vec![]);
    assert_eq!(empty.counterexample(), Some(&[][..]));
}

#[test]
fn eval_trims_white_space() {
    let mut vars = VarMap::new();
    vars.insert("a".to_string(), true);
    assert!(eval_condition("  a \t", &vars));
    assert!(!eval_condition("   ", &vars));
    assert!(eval_condition(" NOT   b ", &vars));
}

#[test]
fn eval_not_binds_loosest_and_before_or() {
    let mut vars = VarMap::new();
    vars.insert("a".to_string(), true);
    vars.insert("b".to_string(), false);
    vars.insert("c".to_string(), true);
    // NOT applies to the whole rest: NOT (a AND b)
    assert!(eval_condition("NOT a AND b", &vars));
    // the first " AND " splits before any " OR ": (a OR b) AND c
    assert!(eval_condition("a OR b AND c", &vars));
    // "b OR a AND b" = (b OR a) AND b = false
    assert!(!eval_condition("b OR a AND b", &vars));
    // OR with an unset variable
    assert!(eval_condition("zzz OR a", &vars));
    assert!(!eval_condition("zzz OR b", &vars));
}

#[test]
fn eval_law_on_plain_names() {
    let mut vars = VarMap::new();
    vars.insert("p".to_string(), true);
    vars.insert("q".to_string(), false);
    for x in ["p", "q", "r"] {
        let vx = vars.get(x).copied().unwrap_or(false);
        assert_eq!(eval_condition(x, &vars), vx);
        assert_eq!(eval_condition(&format!("NOT {}", x), &vars), !vx);
        for y in ["p", "q", "r"] {
            let vy = vars.get(y).copied().unwrap_or(false);
            assert_eq!(eval_condition(&format!("{} AND {}", x, y), &vars), vx && vy);
            assert_eq!(eval_condition(&format!("{} OR {}", x, y), &vars), vx || vy);
        }
    }
}

#[test]
fn eval_handles_non_ascii_names() {
    let mut vars = VarMap::new();
    vars.insert("état".to_string(), true);
    assert!(eval_condition("état", &vars));
    assert!(eval_condition("\u{3000}état\u{A0}", &vars));
    assert!(!eval_condition("NOT état", &vars));
}
