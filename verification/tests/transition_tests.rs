use lib::{Transition, VarMap};

#[test]
fn test_basic_transition() {
    let t = Transition::new(0, 1);
    assert_eq!(t.from, 0);
    assert_eq!(t.to, 1);
    assert!(t.guard.is_none());
}

#[test]
fn test_labeled_transition() {
    let t = Transition::labeled(0, 1, "go");
    assert_eq!(t.label, "go");
}

#[test]
fn test_guarded_transition() {
    let t = Transition::guarded(0, 1, "ready");
    assert_eq!(t.guard, Some("ready".to_string()));
}

#[test]
fn test_fires_no_guard() {
    let t = Transition::new(0, 1);
    let vars = VarMap::new();
    assert!(t.fires(&vars));
}

#[test]
fn test_fires_with_guard() {
    let t = Transition::guarded(0, 1, "ready");
    let mut vars = VarMap::new();
    assert!(!t.fires(&vars));
    vars.insert("ready".to_string(), true);
    assert!(t.fires(&vars));
}

#[test]
fn test_is_from_to() {
    let t = Transition::new(0, 1);
    assert!(t.is_from(0));
    assert!(!t.is_from(1));
    assert!(t.is_to(1));
    assert!(!t.is_to(0));
}

#[test]
fn guard_set_to_false_does_not_fire() {
    let t = Transition::guarded(2, 3, "ready");
    let mut vars = VarMap::new();
    vars.insert("ready".to_string(), false);
    assert!(!t.fires(&vars));
    assert_eq!(t.label, "");
}

#[test]
fn transitions_compare_by_fields() {
    let a = Transition::labeled(0, 1, "go");
    let b = a.clone();
    assert_eq!(a, b);
    assert_ne!(a, Transition::new(0, 1));
}
