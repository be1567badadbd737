use lib::{State, StateGraph, VarMap};

#[test]
fn test_create_state() {
    let mut s = State::new(0, "init");
    s.set_var("ready", true);
    assert_eq!(s.get_var("ready"), Some(true));
    assert_eq!(s.get_var("missing"), None);
}

#[test]
fn test_state_satisfies() {
    let mut s = State::new(0, "s");
    s.set_var("a", true);
    s.set_var("b", true);
    assert!(s.satisfies_all(&["a", "b"]));
    assert!(!s.satisfies_all(&["a", "c"]));
}

#[test]
fn test_state_graph_add() {
    let mut g = StateGraph::new();
    let s0 = g.add_state("s0");
    let _s1 = g.add_state("s1");
    assert_eq!(g.num_states(), 2);
    assert!(g.has_state(s0));
}

#[test]
fn test_transitions() {
    let mut g = StateGraph::new();
    let s0 = g.add_state("s0");
    let s1 = g.add_state("s1");
    g.add_transition(s0, s1);
    assert!(g.has_transition(s0, s1));
    assert!(!g.has_transition(s1, s0));
    assert_eq!(g.num_transitions(), 1);
}

#[test]
fn test_successors_predecessors() {
    let mut g = StateGraph::new();
    let s0 = g.add_state("s0");
    let s1 = g.add_state("s1");
    let s2 = g.add_state("s2");
    g.add_transition(s0, s1);
    g.add_transition(s0, s2);
    let mut succs = g.successors(s0);
    succs.sort();
    assert_eq!(succs, vec![s1, s2]);
    assert_eq!(g.predecessors(s1), vec![s0]);
}

#[test]
fn test_initial_states() {
    let mut g = StateGraph::new();
    let s0 = g.add_state("s0");
    let _s1 = g.add_state("s1");
    g.mark_initial(s0);
    assert_eq!(g.initial_states(), vec![s0]);
}

#[test]
fn test_display_state() {
    let mut s = State::new(0, "init");
    s.set_var("x", true);
    let display = s.to_text();
    assert!(display.contains("init"));
    assert!(display.contains("x=true"));
}

#[test]
fn state_text_lists_bindings_in_order() {
    let mut s = State::new(3, "busy");
    s.set_var("a", true);
    s.set_var("b", false);
    assert_eq!(s.to_text(), "busy:{a=true, b=false}");
    let empty = State::new(4, "idle");
    assert_eq!(empty.to_text(), "idle:{}");
}

#[test]
fn set_var_overwrites_and_keeps_others() {
    let mut s = State::new(0, "s");
    s.set_var("a", true).set_var("b", true);
    s.set_var("a", false);
    assert_eq!(s.get_var("a"), Some(false));
    assert_eq!(s.get_var("b"), Some(true));
    assert_eq!(s.vars.len(), 2);
    assert_eq!(s.to_text(), "s:{a=false, b=true}");
}

#[test]
fn mark_initial_on_state_sets_flag() {
    let mut s = State::new(7, "s");
    assert!(!s.initial);
    s.mark_initial();
    assert!(s.initial);
    assert_eq!(s.id, 7);
    assert_eq!(s.label, "s");
}

#[test]
fn satisfies_all_of_nothing_is_true() {
    let s = State::new(0, "s");
    assert!(s.satisfies_all(&[]));
    let mut t = State::new(1, "t");
    t.set_var("off", false);
    assert!(!t.satisfies_all(&["off"]));
}

#[test]
fn var_map_insert_returns_previous_value() {
    let mut m = VarMap::new();
    assert!(m.is_empty());
    assert_eq!(m.insert("k".to_string(), true), None);
    assert_eq!(m.insert("k".to_string(), false), Some(true));
    assert_eq!(m.get("k"), Some(&false));
    assert!(m.contains_key("k"));
    assert!(!m.contains_key("other"));
    assert_eq!(m.len(), 1);
    assert_eq!(m.name_at(0), "k");
    assert!(!m.value_at(0));
}

#[test]
fn var_map_equality_ignores_order() {
    let mut a = VarMap::new();
    a.insert("x".to_string(), true);
    a.insert("y".to_string(), false);
    let mut b = VarMap::new();
    b.insert("y".to_string(), false);
    b.insert("x".to_string(), true);
    assert!(a == b);
    b.insert("x".to_string(), false);
    assert!(a != b);
    let c = a.clone();
    assert!(c == a);
}

#[test]
fn state_equality_and_clone() {
    let mut a = State::new(1, "a");
    a.set_var("v", true);
    let b = a.clone();
    assert!(a == b);
    let mut c = a.clone();
    c.mark_initial();
    assert!(a != c);
}

#[test]
fn add_state_ids_are_sequential() {
    let mut g = StateGraph::default();
    assert_eq!(g.add_state("a"), 0);
    assert_eq!(g.add_state("b"), 1);
    assert_eq!(g.add_state_with_vars("c", vec![("p", true), ("q", false), ("p", false)]), 2);
    assert_eq!(g.state_ids(), vec![0, 1, 2]);
    let c = g.get_state(2).unwrap();
    assert_eq!(c.label, "c");
    assert_eq!(c.get_var("p"), Some(false));
    assert_eq!(c.get_var("q"), Some(false));
    assert!(g.get_state(3).is_none());
    assert!(!g.has_state(3));
    let all = g.states();
    assert_eq!(all.len(), 3);
    assert_eq!(all[1].label, "b");
}

#[test]
fn adding_a_transition_twice_counts_once() {
    let mut g = StateGraph::new();
    let a = g.add_state("a");
    let b = g.add_state("b");
    g.add_transition(a, b);
    g.add_transition(a, b);
    assert_eq!(g.num_transitions(), 1);
    assert_eq!(g.successors(a), vec![b]);
    assert_eq!(g.predecessors(a), Vec::<u32>::new());
}

#[test]
fn mark_initial_of_missing_state_still_records_it() {
    let mut g = StateGraph::new();
    let a = g.add_state("a");
    g.mark_initial(5);
    g.mark_initial(a);
    g.mark_initial(a);
    let mut init = g.initial_states();
    init.sort();
    assert_eq!(init, vec![0, 5]);
    assert!(g.get_state(a).unwrap().initial);
}

#[test]
fn cloned_graph_is_independent() {
    let mut g = StateGraph::new();
    let a = g.add_state("a");
    let b = g.add_state("b");
    g.add_transition(a, b);
    let h = g.clone();
    g.add_transition(b, a);
    assert_eq!(h.num_transitions(), 1);
    assert_eq!(g.num_transitions(), 2);
    assert_eq!(h.num_states(), 2);
}
