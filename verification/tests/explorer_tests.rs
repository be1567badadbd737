use lib::{SearchStrategy, StateExplorer, StateGraph};

fn make_linear_graph() -> StateGraph {
    let mut g = StateGraph::new();
    let s0 = g.add_state("s0");
    let s1 = g.add_state("s1");
    let s2 = g.add_state("s2");
    g.mark_initial(s0);
    g.add_transition(s0, s1);
    g.add_transition(s1, s2);
    g
}

#[test]
fn test_bfs_exploration() {
    let graph = make_linear_graph();
    let explorer = StateExplorer::new(graph);
    let result = explorer.explore_bfs();
    assert_eq!(result.num_reachable(), 3);
    assert_eq!(result.visit_order, vec![0, 1, 2]);
}

#[test]
fn test_dfs_exploration() {
    let graph = make_linear_graph();
    let explorer = StateExplorer::new(graph);
    let result = explorer.explore_dfs();
    assert_eq!(result.num_reachable(), 3);
    assert!(result.is_reachable(2));
}

#[test]
fn test_bfs_layers() {
    let graph = make_linear_graph();
    let explorer = StateExplorer::new(graph);
    let result = explorer.explore_bfs();
    assert_eq!(result.layers.len(), 3);
    assert_eq!(result.layers[0], vec![0]);
    assert_eq!(result.layers[1], vec![1]);
    assert_eq!(result.layers[2], vec![2]);
}

#[test]
fn test_find_path() {
    let graph = make_linear_graph();
    let explorer = StateExplorer::new(graph);
    let path = explorer.find_path_to(2).unwrap();
    assert_eq!(path, vec![0, 1, 2]);
}

#[test]
fn test_find_path_unreachable() {
    let mut g = StateGraph::new();
    let s0 = g.add_state("s0");
    let s1 = g.add_state("s1");
    g.mark_initial(s0);
    // No transition from s0 to s1
    let explorer = StateExplorer::new(g);
    assert!(explorer.find_path_to(s1).is_none());
}

#[test]
fn test_diamond_graph_bfs() {
    let mut g = StateGraph::new();
    let s0 = g.add_state("s0");
    let s1 = g.add_state("s1");
    let s2 = g.add_state("s2");
    let s3 = g.add_state("s3");
    g.mark_initial(s0);
    g.add_transition(s0, s1);
    g.add_transition(s0, s2);
    g.add_transition(s1, s3);
    g.add_transition(s2, s3);

    let explorer = StateExplorer::new(g);
    let result = explorer.explore_bfs();
    assert_eq!(result.num_reachable(), 4);
    assert_eq!(result.layers.len(), 3);
}

#[test]
fn test_cycle_graph() {
    let mut g = StateGraph::new();
    let s0 = g.add_state("s0");
    let s1 = g.add_state("s1");
    g.mark_initial(s0);
    g.add_transition(s0, s1);
    g.add_transition(s1, s0); // cycle

    let explorer = StateExplorer::new(g);
    let result = explorer.explore_bfs();
    assert_eq!(result.num_reachable(), 2);
}

#[test]
fn test_dead_states() {
    let graph = make_linear_graph();
    let explorer = StateExplorer::new(graph);
    let dead = explorer.dead_states();
    assert_eq!(dead, vec![2]); // s2 has no successors
}

#[test]
fn test_find_states_by_predicate() {
    let mut g = StateGraph::new();
    let s0 = g.add_state_with_vars("s0", vec![("ready", true)]);
    let _s1 = g.add_state_with_vars("s1", vec![("ready", false)]);

    let explorer = StateExplorer::new(g);
    let ready_states = explorer.find_states(|vars| vars.get("ready").copied() == Some(true));
    assert_eq!(ready_states, vec![s0]);
}

fn diamond_with_tail() -> StateGraph {
    // 0 -> 1, 0 -> 2, 1 -> 3, 2 -> 3, 3 -> 4, and 5 unreachable -> 0
    let mut g = StateGraph::new();
    for i in 0..6 {
        g.add_state(&format!("s{}", i));
    }
    g.mark_initial(0);
    g.add_transition(0, 1);
    g.add_transition(0, 2);
    g.add_transition(1, 3);
    g.add_transition(2, 3);
    g.add_transition(3, 4);
    g.add_transition(5, 0);
    g
}

#[test]
fn bfs_layers_are_distance_classes() {
    let e = StateExplorer::new(diamond_with_tail());
    let r = e.explore_bfs();
    assert_eq!(r.layers.len(), 4);
    assert_eq!(r.layers[0], vec![0]);
    let mut l1 = r.layers[1].clone();
    l1.sort();
    assert_eq!(l1, vec![1, 2]);
    assert_eq!(r.layers[2], vec![3]);
    assert_eq!(r.layers[3], vec![4]);
    let flat: Vec<u32> = r.layers.iter().flatten().copied().collect();
    assert_eq!(flat, r.visit_order);
    assert!(!r.is_reachable(5));
    // transitions out of reachable states: all but 5 -> 0
    assert_eq!(r.transitions_traversed, 5);
}

#[test]
fn bfs_and_dfs_agree() {
    let e = StateExplorer::new(diamond_with_tail());
    let b = e.explore(SearchStrategy::Bfs);
    let d = e.explore(SearchStrategy::Dfs);
    assert_eq!(b.reachable, d.reachable);
    assert_eq!(b.num_reachable(), d.num_reachable());
    assert_eq!(b.transitions_traversed, d.transitions_traversed);
    let mut bo = b.visit_order.clone();
    let mut dord = d.visit_order.clone();
    bo.sort();
    dord.sort();
    assert_eq!(bo, dord);
    assert!(d.layers.is_empty());
    // depth-first order follows the first branch to the end
    assert_eq!(d.visit_order[0], 0);
}

#[test]
fn shortest_path_matches_layer() {
    let e = StateExplorer::new(diamond_with_tail());
    let r = e.explore_bfs();
    let p = e.find_path_to(4).unwrap();
    assert_eq!(p.len(), 4);
    assert_eq!(p[0], 0);
    assert_eq!(*p.last().unwrap(), 4);
    assert!(r.layers[p.len() - 1].contains(&4));
    assert_eq!(e.find_path_to(0).unwrap(), vec![0]);
    assert!(e.find_path_to(5).is_none());
    assert!(e.find_path_to(99).is_none());
}

#[test]
fn no_initial_states_means_nothing_reachable() {
    let mut g = StateGraph::new();
    let a = g.add_state("a");
    let b = g.add_state("b");
    g.add_transition(a, b);
    let e = StateExplorer::new(g);
    let r = e.explore_bfs();
    assert_eq!(r.num_reachable(), 0);
    assert!(r.layers.is_empty());
    assert!(r.visit_order.is_empty());
    assert_eq!(r.transitions_traversed, 0);
    assert_eq!(e.explore_dfs().num_reachable(), 0);
    assert!(e.find_path_to(a).is_none());
}

#[test]
fn transitions_to_ids_without_states_are_explored() {
    let mut g = StateGraph::new();
    let a = g.add_state("a");
    g.mark_initial(a);
    g.add_transition(a, 10);
    let e = StateExplorer::new(g);
    let r = e.explore_bfs();
    assert!(r.is_reachable(10));
    assert_eq!(e.find_path_to(10).unwrap(), vec![a, 10]);
    // 10 has no state, so it is not a dead state; `a` has a successor
    assert!(e.dead_states().is_empty());
    assert_eq!(e.graph().num_states(), 1);
}

#[test]
fn find_states_in_increasing_order() {
    let mut g = StateGraph::new();
    for i in 0..5u32 {
        g.add_state_with_vars("s", vec![("even", i % 2 == 0)]);
    }
    let e = StateExplorer::new(g);
    assert_eq!(e.find_states(|v| v.get("even").copied().unwrap_or(false)), vec![0, 2, 4]);
    assert_eq!(e.find_states(|_v| false), Vec::<u32>::new());
}

#[test]
fn dfs_visits_depth_first() {
    let mut g = StateGraph::new();
    let s0 = g.add_state("s0");
    let s1 = g.add_state("s1");
    let s2 = g.add_state("s2");
    let s3 = g.add_state("s3");
    g.mark_initial(s0);
    g.add_transition(s0, s1);
    g.add_transition(s0, s2);
    g.add_transition(s1, s3);
    g.add_transition(s2, s3);
    let r = StateExplorer::new(g).explore_dfs();
    // s3 is visited straight after its first parent s1
    assert_eq!(r.visit_order, vec![0, 1, 3, 2]);
    assert!(r.layers.is_empty());
    assert_eq!(r.transitions_traversed, 4);
}
